use vulkano_template::profiler::Profiler;

#[test]
fn it_works() {
    let result = 2 + 2;
    assert_eq!(result, 4);
}

#[test]
fn profiler_summary_all_zero() {
    let p: Profiler<2, 4> = Profiler::new(["Colliders", "Physics"]);
    let s = p.summary();
    assert_eq!(
        s,
        "Colliders          0 μs\nPhysics            0 μs\nTotal              0 μs (NA fps)"
    );
}

#[test]
fn profiler_summary_averages_and_fps() {
    let mut p: Profiler<2, 4> = Profiler::new(["Lock wait", "Others"]);
    // frame 0
    p.add_sample(100, 0);
    p.add_sample(40, 1);
    p.end_frame();
    // frame 1
    p.add_sample(300, 0);
    p.end_frame();
    // averages over the 4 slots: (100 + 300) / 4 = 100 and 40 / 4 = 10
    let s = p.summary();
    assert_eq!(
        s,
        "Lock wait        100 μs\nOthers            10 μs\nTotal            110 μs (9090 fps)"
    );
}

#[test]
fn profiler_ring_buffer_overwrites_oldest() {
    let mut p: Profiler<1, 2> = Profiler::new(["Render"]);
    p.add_sample(10, 0);
    p.end_frame();
    p.add_sample(20, 0);
    p.end_frame();
    // back at the first slot: 10 is replaced
    p.add_sample(40, 0);
    let s = p.summary();
    // (40 + 20) / 2 = 30
    assert_eq!(s, "Render            30 μs\nTotal             30 μs (33333 fps)");
}

#[test]
fn profiler_same_slot_replaced_within_frame() {
    let mut p: Profiler<1, 2> = Profiler::new(["GUI and inputs"]);
    p.add_sample(500, 0);
    p.add_sample(8, 0);
    let s = p.summary();
    assert_eq!(s, "GUI and inputs     4 μs\nTotal              4 μs (250000 fps)");
}

#[test]
fn profiler_long_name_and_wide_number() {
    let mut p: Profiler<1, 1> = Profiler::new(["A name longer than sixteen"]);
    p.add_sample(123456, 0);
    let s = p.summary();
    assert_eq!(
        s,
        "A name longer than sixteen123456 μs\nTotal           123456 μs (8 fps)"
    );
}
