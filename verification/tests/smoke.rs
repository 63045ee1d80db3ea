use rvkernel::timer_interrupt::{Ticks, handle_timer_interrupt};

#[test]
fn tick_prints_dot_every_tenth() {
    let mut t = Ticks::new();
    let mut dots = 0;
    for i in 0..30u64 {
        let a = handle_timer_interrupt(&mut t, i * 5);
        assert_eq!(a.next_deadline, i * 5 + 1_000_000);
        if a.print_dot {
            dots += 1;
        }
    }
    assert_eq!(dots, 3);
    assert_eq!(t.count, 30);
}
