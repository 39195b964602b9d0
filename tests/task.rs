use easy_fs::task::{TaskContext, TaskStatus};

#[test]
fn zero_context() {
    let cx = TaskContext::zero_init();
    assert_eq!(cx.ra(), 0);
    assert_eq!(cx.sp(), 0);
}

#[test]
fn trap_return_context() {
    let cx = TaskContext::goto_trap_return(0x8020_0000, 0x9000);
    assert_eq!(cx.ra(), 0x8020_0000);
    assert_eq!(cx.sp(), 0x9000);
}

#[test]
fn status_compares() {
    assert!(TaskStatus::Ready == TaskStatus::Ready);
    assert!(TaskStatus::Running != TaskStatus::Blocking);
}
