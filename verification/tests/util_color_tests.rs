use sscg::color::{color_hex24tpl, shiftaddup4};
use sscg::util::{WorkerPool, WorkerThreadRef};
use sscg::wl_gd_mod_resolver::GodotModuleResolver;
use std::sync::mpsc::channel;

#[test]
fn nibble_repeats() {
    assert_eq!(shiftaddup4(0x0), 0x00);
    assert_eq!(shiftaddup4(0xA), 0xAA);
    assert_eq!(shiftaddup4(0xF), 0xFF);
}

#[test]
fn colour_literals() {
    assert_eq!(color_hex24tpl("ff8000"), (255, 128, 0, 255));
    assert_eq!(color_hex24tpl("FF800040"), (255, 128, 0, 64));
    assert_eq!(color_hex24tpl("f80"), (255, 136, 0, 255));
    assert_eq!(color_hex24tpl("f808"), (255, 136, 0, 136));
    assert_eq!(color_hex24tpl("12345"), (255, 0, 255, 255));
    assert_eq!(color_hex24tpl(""), (255, 0, 255, 255));
}

#[test]
fn unparsable_groups_fall_back() {
    assert_eq!(color_hex24tpl("zz8000"), (0, 128, 0, 255));
    assert_eq!(color_hex24tpl("000000zz"), (0, 0, 0, 255));
    assert_eq!(color_hex24tpl("fffz"), (255, 255, 255, 255));
    assert_eq!(color_hex24tpl("+f+f+f"), (15, 15, 15, 255));
    assert_eq!(color_hex24tpl("+ff"), (0, 255, 255, 255));
}

#[test]
fn pool_hands_jobs_out_in_turn() {
    let (tx0, rx0) = channel::<u32>();
    let (tx1, rx1) = channel::<u32>();
    let (rtx, rrx) = channel::<u32>();
    let workers = vec![WorkerThreadRef::new(tx0), WorkerThreadRef::new(tx1)];
    let mut pool: WorkerPool<u32, u32> = WorkerPool::new(workers, rrx);
    assert_eq!(pool.queued_job_count(), 0);
    assert!(pool.send(1));
    assert!(pool.send(2));
    assert!(pool.send(3));
    assert_eq!(pool.queued_job_count(), 3);
    assert_eq!(pool.next_worker_idx, 1);
    assert_eq!(rx0.try_iter().collect::<Vec<u32>>(), vec![1, 3]);
    assert_eq!(rx1.try_iter().collect::<Vec<u32>>(), vec![2]);
    assert_eq!(pool.get_result(), None);
    rtx.send(10).unwrap();
    rtx.send(20).unwrap();
    assert_eq!(pool.get_result(), Some(10));
    assert_eq!(pool.get_result_blocking(), Some(20));
    assert_eq!(pool.queued_job_count(), 1);
    drop(rtx);
    assert_eq!(pool.get_result_blocking(), None);
    assert_eq!(pool.queued_job_count(), 1);
}

#[test]
fn pool_refuses_a_job_its_worker_cannot_take() {
    let (tx0, rx0) = channel::<u32>();
    let (_rtx, rrx) = channel::<u32>();
    drop(rx0);
    let mut pool: WorkerPool<u32, u32> = WorkerPool::new(vec![WorkerThreadRef::new(tx0)], rrx);
    assert!(!pool.send(5));
    assert_eq!(pool.queued_job_count(), 0);
    assert_eq!(pool.next_worker_idx, 0);
}

#[test]
fn resolver_is_stateless() {
    let _r = GodotModuleResolver::new();
    let _d = GodotModuleResolver::default();
}

#[test]
fn module_files_live_under_gamelib() {
    let p = vec!["ui".to_string(), "menu".to_string()];
    assert_eq!(GodotModuleResolver::module_name(&p), "ui/menu");
    assert_eq!(GodotModuleResolver::module_file(&p), "res://gamelib/ui/menu.wl");
    assert_eq!(GodotModuleResolver::module_file(&vec!["main".to_string()]), "res://gamelib/main.wl");
    assert_eq!(GodotModuleResolver::module_name(&vec![]), "");
}

#[test]
fn pool_accounts_for_what_the_channels_gave() {
    let (tx0, _rx0) = channel::<u32>();
    let (tx1, _rx1) = channel::<u32>();
    let (_rtx, rrx) = channel::<u32>();
    let workers = vec![WorkerThreadRef::new(tx0), WorkerThreadRef::new(tx1)];
    let mut pool: WorkerPool<u32, u32> = WorkerPool::new(workers, rrx);
    assert!(pool.note_sent(true));
    assert_eq!((pool.queued_job_count(), pool.next_worker_idx), (1, 1));
    assert!(pool.note_sent(true));
    assert_eq!((pool.queued_job_count(), pool.next_worker_idx), (2, 0));
    assert!(!pool.note_sent(false));
    assert_eq!((pool.queued_job_count(), pool.next_worker_idx), (2, 0));
    assert_eq!(pool.note_result(Some(7)), Some(7));
    assert_eq!(pool.queued_job_count(), 1);
    assert_eq!(pool.note_result(None), None);
    assert_eq!(pool.queued_job_count(), 1);
    assert_eq!(pool.note_result(Some(8)), Some(8));
    assert_eq!(pool.note_result(Some(9)), Some(9));
    assert_eq!(pool.queued_job_count(), 0);
}

#[test]
fn save_text_is_read_as_json() {
    let v = sscg::util::parse_save_text("[\"sscg_savegame\", 0, {\"a\": 1}]").unwrap();
    assert_eq!(v.v_s_raw(0), "sscg_savegame");
    assert_eq!(v.v_i(1), 0);
    assert!(sscg::util::parse_save_text("[1, 2").is_err());
    assert!(sscg::util::parse_save_text("").is_err());
}
