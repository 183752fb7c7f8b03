use bropt::{
    compress, flatten, fold_mul_loops, fold_simple_loops, fold_skip_loops, move_repeating_resets, parse,
    remove_dead_writes, BaseInst, InstType,
};

fn show(p: &[BaseInst]) -> String {
    format!("{:?}", p)
}

#[test]
fn parse_builds_tree_with_stability() {
    let p = parse("+-><.,[>]x[<>]").unwrap();
    assert_eq!(
        show(&p),
        "[Inc(1), Inc(255), Shift(1), Shift(-1), Output, Input, Block([Shift(1)], false), Block([Shift(-1), Shift(1)], true)]"
    );
    let p = parse("[[>]<>]").unwrap();
    assert_eq!(show(&p), "[Block([Block([Shift(1)], false), Shift(-1), Shift(1)], false)]");
}

#[test]
fn compress_fuses_runs() {
    let p = compress(parse("+++>><<<--[++-]").unwrap());
    assert_eq!(show(&p), "[Inc(3), Shift(-1), Inc(254), Block([Inc(1)], true)]");
    let p = compress(parse("+-><").unwrap());
    assert_eq!(show(&p), "[]");
    let once = compress(parse("++>>[-->+<<]").unwrap());
    let twice = compress(compress(parse("++>>[-->+<<]").unwrap()));
    assert_eq!(show(&once), show(&twice));
}

#[test]
fn compress_fuses_across_a_cancelled_run() {
    let once = compress(parse("+><+").unwrap());
    assert_eq!(show(&once), "[Inc(2)]");
    let twice = compress(compress(parse("+><+").unwrap()));
    assert_eq!(show(&twice), "[Inc(2)]");
    let p = compress(parse("+>+-<-[>+<-<>]").unwrap());
    assert_eq!(show(&p), "[Block([Shift(1), Inc(1), Shift(-1), Inc(255)], true)]");
}

#[test]
fn compress_keeps_shift_sums_that_overflow() {
    let prog = vec![BaseInst::Block(vec![BaseInst::Shift(i32::MAX), BaseInst::Shift(1)], false)];
    let p = compress(prog);
    assert_eq!(show(&p), "[Block([Shift(2147483647), Shift(1)], false)]");
    let prog = vec![BaseInst::Shift(i32::MAX), BaseInst::Shift(10), BaseInst::Shift(-20)];
    let p = compress(prog);
    assert_eq!(show(&p), "[Shift(2147483637)]");
    let prog = vec![BaseInst::Block(
        vec![
            BaseInst::Inc(255),
            BaseInst::Shift(i32::MAX),
            BaseInst::Shift(1),
            BaseInst::Inc(1),
            BaseInst::Shift(i32::MIN),
        ],
        true,
    )];
    let p = fold_mul_loops(compress(prog));
    assert!(!show(&p).contains("Mul(-2147483648"));
}

#[test]
fn fold_simple_rewrites_single_node_loops() {
    let p = fold_simple_loops(compress(parse("[-][--][>>][<]").unwrap()));
    assert_eq!(show(&p), "[Reset, Block([Inc(254)], true), Seek(2), Seek(-1)]");
}

#[test]
fn fold_mul_rewrites_stable_decrement_loops() {
    let p = fold_mul_loops(compress(parse("[->+++>>-<<<<++>]").unwrap()));
    assert_eq!(show(&p), "[Mul(-1, 2), Mul(1, 3), Mul(3, 255), Reset]");
    let p = fold_mul_loops(compress(parse("[+>+<]").unwrap()));
    assert_eq!(show(&p), "[Block([Inc(1), Shift(1), Inc(1), Shift(-1)], true)]");
    let p = fold_mul_loops(compress(parse("[->+]").unwrap()));
    assert_eq!(show(&p), "[Block([Inc(255), Shift(1), Inc(1)], false)]");
}

#[test]
fn fold_skip_rewrites_shift_and_inc_loops() {
    let p = fold_skip_loops(compress(parse("[>>+<]").unwrap()));
    assert_eq!(show(&p), "[Skip(1, 1, 2)]");
    let p = fold_skip_loops(compress(parse("[>+>+]").unwrap()));
    assert_eq!(show(&p), "[Block([Shift(1), Inc(1), Shift(1), Inc(1)], false)]");
}

#[test]
fn dead_writes_in_stable_blocks_are_removed() {
    let prog = vec![BaseInst::Block(vec![BaseInst::Inc(3), BaseInst::Reset, BaseInst::Inc(255)], true)];
    let p = remove_dead_writes(prog);
    assert_eq!(show(&p), "[Block([Reset, Inc(255)], true)]");
    let prog = vec![BaseInst::Inc(3), BaseInst::Reset];
    let p = remove_dead_writes(prog);
    assert_eq!(show(&p), "[Inc(3), Reset]");
    let prog = vec![BaseInst::Block(vec![BaseInst::Reset, BaseInst::Output, BaseInst::Reset], true)];
    let p = remove_dead_writes(prog);
    assert_eq!(show(&p), "[Block([Reset, Output, Reset], true)]");
}

#[test]
fn repeating_resets_are_hoisted() {
    let prog = vec![BaseInst::Block(
        vec![BaseInst::Inc(255), BaseInst::Shift(2), BaseInst::Reset, BaseInst::Shift(-2)],
        true,
    )];
    let p = move_repeating_resets(prog);
    assert_eq!(
        show(&p),
        "[Block([Block([Inc(255), Shift(2), Shift(-2)], true), Shift(2), Reset, Shift(-2)], true)]"
    );
    let prog = vec![BaseInst::Block(vec![BaseInst::Reset, BaseInst::Output], true)];
    let p = move_repeating_resets(prog);
    assert_eq!(show(&p), "[Block([Reset, Output], true)]");
}

#[test]
fn flatten_fuses_and_links() {
    let prog = vec![
        BaseInst::Shift(3),
        BaseInst::Output,
        BaseInst::Inc(2),
        BaseInst::Shift(-1),
        BaseInst::Block(vec![BaseInst::Inc(255), BaseInst::Shift(1), BaseInst::Input], false),
    ];
    let f = flatten(prog);
    assert_eq!(f.len(), 4);
    assert_eq!((f[0].cmd, f[0].arg, f[0].inc, f[0].delta), (InstType::Output, 3, 2, -1));
    assert_eq!((f[1].cmd, f[1].arg, f[1].inc, f[1].delta), (InstType::Open, 3, 255, 1));
    assert_eq!((f[2].cmd, f[2].arg), (InstType::Input, 0));
    assert_eq!((f[3].cmd, f[3].arg, f[3].inc, f[3].delta), (InstType::Close, 1, 255, 1));
    let f = flatten(vec![BaseInst::Block(vec![BaseInst::Output], false)]);
    assert_eq!((f[0].cmd, f[0].arg), (InstType::Open, 2));
    assert_eq!((f[2].cmd, f[2].arg), (InstType::Close, 0));
}

#[test]
fn flatten_keeps_large_shift_apart() {
    let f = flatten(vec![BaseInst::Inc(1), BaseInst::Shift(100000)]);
    assert_eq!(f.len(), 2);
    assert_eq!((f[0].cmd, f[0].inc, f[0].delta), (InstType::ShiftInc, 1, 0));
    assert_eq!((f[1].cmd, f[1].arg), (InstType::ShiftInc, 100000));
}
