use gpu_compute::{dispatch_count, sum, Context, Dispatch, Pass};

#[test]
fn dispatch_count_concrete() {
    assert_eq!(dispatch_count(100024, 64), 1563);
    assert_eq!(dispatch_count(64, 64), 1);
    assert_eq!(dispatch_count(0, 64), 0);
    assert_eq!(dispatch_count(1, 64), 1);
    assert_eq!(dispatch_count(65, 64), 2);
}

#[test]
fn upload_read_round_trip() {
    let mut ctx = Context::new();
    let data = [3, 1, 4, 1, 5, 9, 2, 6];
    let buf = ctx.upload(&data);
    let mapped = ctx.read_buffer(&buf);
    assert_eq!(mapped.values().as_slice(), &data);
}

#[test]
fn round_trip_survives_unrelated_pass() {
    let mut ctx = Context::new();
    let data = [10, 20, 30];
    let kept = ctx.upload(&data);
    let other = ctx.upload(&[100, 200, 300]);
    let mut pass = Pass::new();
    pass.mod_buffer_in_place(&other, 7);
    ctx.do_in_pass(pass);
    let mapped = ctx.read_buffer(&kept);
    assert_eq!(mapped.values().as_slice(), &data);
}

#[test]
fn mod_then_scatter_scenario() {
    let mut ctx = Context::new();
    let buf = ctx.upload(&[394848, 33, 3, 2, 2, 2, 32, 32, 3]);
    let mut pass = Pass::new();
    pass.mod_buffer_in_place(&buf, 9);
    ctx.do_in_pass(pass);
    let modded = ctx.read_buffer(&buf);
    // 394848 is a multiple of 9, so its remainder is 0.
    assert_eq!(modded.values().as_slice(), &[0, 6, 3, 2, 2, 2, 5, 5, 3]);

    let indices = ctx.upload(&[1, 3]);
    let mut pass = Pass::new();
    pass.scatter_with_value(&indices, &buf, 77);
    ctx.do_in_pass(pass);
    let scattered = ctx.read_buffer(&buf);
    assert_eq!(scattered.values().as_slice(), &[0, 77, 3, 77, 2, 2, 5, 5, 3]);
}

#[test]
fn device_sum_matches_host_sum() {
    let xs: Vec<u32> = (0u32..1000).map(|i| i.wrapping_mul(2654435761) ^ 0x9e3779b9).collect();
    let mut ctx = Context::new();
    let input = ctx.upload(&xs);
    let out = ctx.single_value_buffer();
    let mut pass = Pass::new();
    pass.sum_reduce(&input, &out);
    ctx.do_in_pass(pass);
    assert_eq!(ctx.read_single_value(&out), sum(&xs));
}

#[test]
fn device_sum_of_wrapping_values() {
    let xs = [u32::MAX; 130];
    let mut ctx = Context::new();
    let input = ctx.upload(&xs);
    let out = ctx.single_value_buffer();
    let mut pass = Pass::new();
    pass.sum_reduce(&input, &out);
    ctx.do_in_pass(pass);
    assert_eq!(ctx.read_single_value(&out), sum(&xs));
    assert_eq!(sum(&xs), (u32::MAX as u64 * 130 % (1u64 << 32)) as u32);
}

#[test]
fn device_scatter_matches_host_scatter() {
    let mut host_out = vec![5, 5, 5, 5, 5, 5];
    gpu_compute::scatter_with_value(&mut host_out, &[0, 2, 4], 9);

    let mut ctx = Context::new();
    let output = ctx.upload(&[5, 5, 5, 5, 5, 5]);
    let indices = ctx.upload(&[0, 2, 4]);
    let mut pass = Pass::new();
    pass.scatter_with_value(&indices, &output, 9);
    ctx.do_in_pass(pass);
    assert_eq!(ctx.read_buffer(&output).values(), &host_out);
}

#[test]
fn pass_records_dispatches_in_order() {
    let mut ctx = Context::new();
    let a = ctx.upload(&[1; 100]);
    let idx = ctx.upload(&[0]);
    let mut pass = Pass::new();
    pass.mod_buffer_in_place(&a, 2);
    pass.scatter_with_value(&idx, &a, 3);
    let cmds = pass.commands();
    assert_eq!(cmds.len(), 2);
    assert!(matches!(
        cmds[0],
        Dispatch::ModInPlace { buffer: 0, value: 2, workgroups: 2 }
    ));
    assert!(matches!(
        cmds[1],
        Dispatch::ScatterWithValue { indices: 1, output: 0, value: 3, workgroups: 1 }
    ));
    ctx.do_in_pass(pass);
    let r = ctx.read_buffer(&a);
    assert_eq!(r.values()[0], 3);
    assert_eq!(r.values()[1], 1);
}

#[test]
fn storage_buffer_has_requested_length() {
    let mut ctx = Context::new();
    let buf = ctx.storage_buffer_of_length(17);
    assert_eq!(buf.len(), 17);
    let mapped = ctx.read_buffer(&buf);
    assert_eq!(mapped.values().len(), 17);
}

#[test]
fn two_passes_apply_in_submission_order() {
    let mut ctx = Context::new();
    let buf = ctx.upload(&[100]);
    let mut first = Pass::new();
    first.mod_buffer_in_place(&buf, 7);
    ctx.do_in_pass(first);
    let mut second = Pass::new();
    second.mod_buffer_in_place(&buf, 3);
    ctx.do_in_pass(second);
    // 100 % 7 == 2, then 2 % 3 == 2.
    assert_eq!(ctx.read_buffer(&buf).values(), &vec![2]);
}
