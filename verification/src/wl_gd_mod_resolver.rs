//! The module resolver that loads game scripts from the Godot resource tree.
use vstd::prelude::*;
use vstd::string::StringExecFns;

verus! {

/// Loads script modules on `!@import`; it carries no state.
#[derive(Debug, Clone)]
pub struct GodotModuleResolver {}

/// The parts `ps` joined with `sep` between each two.
pub open spec fn join(ps: Seq<Seq<char>>, sep: Seq<char>) -> Seq<char>
    decreases ps.len(),
{
    if ps.len() == 0 {
        Seq::empty()
    } else if ps.len() == 1 {
        ps[0]
    } else {
        join(ps.drop_last(), sep) + sep + ps.last()
    }
}

impl GodotModuleResolver {
    pub fn new() -> (r: GodotModuleResolver)
        ensures
            r == (GodotModuleResolver {}),
    {
        GodotModuleResolver {}
    }

    /// The name under which the module at `path` is evaluated: the path's
    /// parts joined by `/`.
    pub fn module_name(path: &Vec<String>) -> (n: String)
        ensures
            n@ == join(path@.map_values(|s: String| s@), "/"@),
    {
        let ghost parts = path@.map_values(|s: String| s@);
        let mut n = String::new();
        let mut i: usize = 0;
        proof {
            reveal_strlit("/");
        }
        while i < path.len()
            invariant
                i <= path@.len(),
                parts == path@.map_values(|s: String| s@),
                n@ == join(parts.take(i as int), "/"@),
                "/"@ == seq!['/'],
            decreases path@.len() - i,
        {
            if i > 0 {
                n = n.concat("/");
            }
            n = n.concat(path[i].as_str());
            proof {
                assert(parts.take(i + 1).drop_last() =~= parts.take(i as int));
                assert(parts.take(i + 1).last() == path@[i as int]@);
                if i == 0 {
                    assert(parts.take(1) =~= seq![path@[0]@]);
                }
            }
            i = i + 1;
        }
        proof {
            assert(parts.take(path@.len() as int) =~= parts);
        }
        n
    }

    /// The resource file that holds the module at `path`: the module's
    /// name under `res://gamelib/`, with the extension `.wl`.
    pub fn module_file(path: &Vec<String>) -> (f: String)
        ensures
            f@ == "res://gamelib/"@ + join(path@.map_values(|s: String| s@), "/"@) + ".wl"@,
    {
        let n = GodotModuleResolver::module_name(path);
        let f = String::from_str("res://gamelib/").concat(n.as_str());
        f.concat(".wl")
    }
}

impl Default for GodotModuleResolver {
    fn default() -> (r: Self)
        ensures
            r == (GodotModuleResolver {}),
    {
        GodotModuleResolver {}
    }
}

} // verus!
