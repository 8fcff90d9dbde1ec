use std::collections::HashMap;

use mincaml::x86::emit::shuffle;

fn mv(x: &str, y: &str) -> (String, String) {
    (x.to_string(), y.to_string())
}

fn run_moves(moves: &[(String, String)], regs: &mut HashMap<String, i64>) {
    for (x, y) in moves {
        let v = *regs.get(x).unwrap_or(&0);
        regs.insert(y.clone(), v);
    }
}

fn parallel_moves(moves: &[(String, String)], regs: &HashMap<String, i64>) -> HashMap<String, i64> {
    let mut out = regs.clone();
    for (x, y) in moves {
        out.insert(y.clone(), *regs.get(x).unwrap_or(&0));
    }
    out
}

#[test]
fn shuffle_empty() {
    assert_eq!(shuffle("sw", &[]), vec![]);
}

#[test]
fn shuffle_drops_identical_moves() {
    assert_eq!(shuffle("sw", &[mv("a", "a"), mv("b", "b")]), vec![]);
}

#[test]
fn shuffle_single_move() {
    assert_eq!(shuffle("sw", &[mv("a", "b")]), vec![mv("a", "b")]);
}

#[test]
fn shuffle_chain_moves_free_destination_first() {
    assert_eq!(shuffle("sw", &[mv("a", "b"), mv("b", "c")]), vec![mv("b", "c"), mv("a", "b")]);
}

#[test]
fn shuffle_swap_uses_spare() {
    assert_eq!(
        shuffle("sw", &[mv("a", "b"), mv("b", "a")]),
        vec![mv("b", "sw"), mv("a", "b"), mv("sw", "a")]
    );
}

#[test]
fn shuffle_three_cycle() {
    assert_eq!(
        shuffle("sw", &[mv("a", "b"), mv("b", "c"), mv("c", "a")]),
        vec![mv("b", "sw"), mv("a", "b"), mv("c", "a"), mv("sw", "c")]
    );
}

#[test]
fn shuffle_result_matches_parallel_move() {
    let cases: Vec<Vec<(String, String)>> = vec![
        vec![mv("%rax", "%rbx"), mv("%rbx", "%rax")],
        vec![mv("%rax", "%rbx"), mv("%rbx", "%rcx"), mv("%rcx", "%rax"), mv("%rdx", "%rsi")],
        vec![mv("%rax", "%rbx"), mv("%rax", "%rcx"), mv("%rcx", "%rax")],
        vec![mv("%rdi", "%rdi"), mv("%rsi", "%rdx"), mv("%rdx", "%rsi"), mv("%rbx", "%rax")],
        vec![mv("%rax", "%rbx"), mv("%rbx", "%rax"), mv("%rcx", "%rdx"), mv("%rdx", "%rcx")],
    ];
    for moves in cases {
        let mut regs: HashMap<String, i64> = HashMap::new();
        for (k, r) in ["%rax", "%rbx", "%rcx", "%rdx", "%rsi", "%rdi", "sw"].iter().enumerate() {
            regs.insert(r.to_string(), 10 * (k as i64) + 1);
        }
        let expected = parallel_moves(&moves, &regs);
        let seq = shuffle("sw", &moves);
        run_moves(&seq, &mut regs);
        for (r, v) in expected.iter() {
            if r != "sw" {
                assert_eq!(regs.get(r), Some(v), "register {} after {:?}", r, seq);
            }
        }
    }
}
