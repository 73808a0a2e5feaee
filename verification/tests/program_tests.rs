use nitc_blocks::{arun, modification, stage1, stage5};

fn lines(text: &str) -> Vec<String> {
    text.lines().map(|l| l.to_string()).collect()
}

const STAGE5_INPUT: &str = "3
a 100
b 50
c 0
7
a b 30 5
b c 70 7
c a 10 2
a c 20 5
b a 5 1
c b 100 9
a b 10 5
2
m1 3 1 2 3 4 5 6 7 8
m2 2 5 5 5 5 5 5 5 5
";

#[test]
fn stage5_program_output() {
    let out = stage5::run_program(&lines(STAGE5_INPUT)).unwrap();
    assert_eq!(
        out,
        "1\n4b9aab61f2543c96c203b372b991ce2a1fa260f5be1a425d3b731e14999e7fd0\n[['a', 'b', 30, 5], ['a', 'b', 10, 5], ['a', 'c', 20, 5], ['c', 'a', 10, 2]]\ne891c54092f4d00a966a32a14d8d369ca62714b6b7a7b86537138ee447916d40\n8 m2\n2\n2d06ddf3fca8e71300cdfb5be0e3776c8ed3402aa818edb3fe89a7843df06267\n[['b', 'a', 5, 1]]\ndc01cfc9babcf026322b30e90566b7c7111c303916dc99abbe27ccae49f90ea5\n0 m2\n"
    );
}

#[test]
fn arun_program_output() {
    let input = "3\na 100\nb 50\nc 0\n7\na b 30 5\nb c 70 7\nc a 10 2\na c 20 5\nb a 5 1\nc b 100 9\na b 10 5\n7\n2\nx 3 1 2 3 4 5 6 7 8\ny 2 5 5 5 5 5 5 5 5\n";
    let out = arun::run_program(&lines(input)).unwrap();
    assert_eq!(
        out,
        "1\n4b9aab61f2543c96c203b372b991ce2a1fa260f5be1a425d3b731e14999e7fd0\n[['a', 'b', 30, 5], ['a', 'b', 10, 5], ['a', 'c', 20, 5], ['c', 'a', 10, 2]]\ne891c54092f4d00a966a32a14d8d369ca62714b6b7a7b86537138ee447916d40\n8 y\n2\n2d06ddf3fca8e71300cdfb5be0e3776c8ed3402aa818edb3fe89a7843df06267\n[['b', 'a', 5, 1]]\ndc01cfc9babcf026322b30e90566b7c7111c303916dc99abbe27ccae49f90ea5\n0 y\n"
    );
}

#[test]
fn modification_program_output() {
    let input = "3\na 100\nb 50\nc 0\n7\na 5 b 30\nb 7 c 70\nc 2 a 10\na 5 c 20\nb 1 a 5\nc 9 b 100\na 5 b 10\n7\n2\nx 3 1 2 3 4 5 6 7 8\ny 2 5 5 5 5 5 5 5 5\n";
    let out = modification::run_program(&lines(input)).unwrap();
    assert_eq!(
        out,
        "1\n7441da3240f7381fa0caef26a7dd231699e075f6857147b52512a928ae1181fc\n[['a', '30', b, 5], ['b', '70', c, 7], ['c', '10', a, 2], ['a', '20', c, 5], ['b', '5', a, 1], ['a', '10', b, 5]]\ncb6731f00494a6c2bfd55756cb91078bd37378544cf794d923b45d037a41adb9\n23 y\n"
    );
}

#[test]
fn stage1_program_output() {
    let input = "3\na 100\nb 50\nc 0\n7\na b 30 5\nb c 70 7\nc a 10 2\na c 20 5\nb a 5 1\nc b 100 9\na b 10 5\n";
    let out = stage1::run_program(&lines(input)).unwrap();
    assert_eq!(
        out,
        "1\nddc4f586a41dfdb79f911807d6111bdaa43f4c54e0c75f0e62a973cc910a1d5a\n[['a', 'b', 30, 5], ['b', 'c', 70, 7], ['c', 'a', 10, 2]]\nf9280a49f0fac03a8d4e445dcff2f47713a2b2516987ff5c7cd5d229c22c5236\n2\n947cc362ae0bc2b34ae6268a2366ae3477203dcc331e76edf0918d4117bc1274\n[['a', 'c', 20, 5], ['b', 'a', 5, 1], ['a', 'b', 10, 5]]\nf752eb43c23040496e20e34623047af23e323704ae8fc1b817246863585e6673\n"
    );
}

#[test]
fn extra_spaces_and_words_are_tolerated() {
    let input = "  3 \n\ta\t100  extra\nb 50\nc 0\n 7\na b 30 5 x\nb c 70 7\nc a 10 2\na c 20 5\nb a 5 1\nc b 100 9\na b 10 5\n2\nm1 3 1 2 3 4 5 6 7 8 9\nm2 2 5 5 5 5 5 5 5 5\ntrailing line\n";
    let out = stage5::run_program(&lines(input)).unwrap();
    assert_eq!(out, stage5::run_program(&lines(STAGE5_INPUT)).unwrap());
}

#[test]
fn missing_or_malformed_lines_are_refused() {
    assert!(stage5::run_program(&lines("")).is_none());
    assert!(stage5::run_program(&lines("1\na 10\n")).is_none());
    assert!(stage5::run_program(&lines("1\na ten\n0\n0\n")).is_none());
    assert!(stage5::run_program(&lines("0\n1\na b 5\n0\n")).is_none());
    assert!(stage5::run_program(&lines("0\n0\n1\nm 1 2 3\n")).is_none());
    assert!(stage5::run_program(&lines("0\n0\n0\n")).unwrap().is_empty());
    assert!(arun::run_program(&lines("0\n0\n0\n")).is_none());
    assert!(arun::run_program(&lines("0\n0\n5\n0\n")).unwrap().is_empty());
}

#[test]
fn negative_counts_read_no_lines() {
    assert!(stage5::run_program(&lines("-2\n-1\n-5\n")).unwrap().is_empty());
    assert!(stage1::run_program(&lines("-1\n0\n")).unwrap().is_empty());
}

#[test]
fn parsed_input_values() {
    let inp = stage5::parse_input(&lines(STAGE5_INPUT)).unwrap();
    assert_eq!(inp.balances.len(), 3);
    assert_eq!(inp.balances.get(&('a' as u32)), Some(&100));
    assert_eq!(inp.transactions.len(), 7);
    assert_eq!(inp.miners[1].id, "m2");
    assert_eq!(inp.miners[0].block_hash_score_array, vec![1, 2, 3, 4, 5, 6, 7, 8]);
    let later_wins = stage1::parse_input(&lines("2\na 1\nabc 5\n0\n")).unwrap();
    assert_eq!(later_wins.balances.get(&('a' as u32)), Some(&5));
    let m = modification::parse_input(&lines("0\n1\na 9 b 4\n3\n1\nq 1 1 1 1 1 1 1 1 1\n")).unwrap();
    assert_eq!(m.transactions[0].incentive, 9);
    assert_eq!(m.transactions[0].to, 'b');
    assert_eq!(m.transactions[0].amount, 4);
    assert_eq!(m.block_reward, 3);
    assert_eq!(m.miners[0].id, 'q');
}
