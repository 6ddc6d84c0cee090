//! Byte strings, spellings, the ordered table and the ranking.

use nutcracker::bytes::{be32_bytes, exactly, precedes, prefix, push_be32, push_be64, same_bytes};
use nutcracker::ranking::{rank, RankKey};
use nutcracker::table::Table;
use nutcracker::text::{chars_of, decimal, hex, join, same_text, unhex};

#[test]
fn bytes_are_ordered_as_the_standard_library_orders_them() {
    let samples: Vec<&[u8]> = vec![
        b"", b"\0", b"a", b"aa", b"ab", b"b", b"\xff", b"a\0", "é".as_bytes(), "z".as_bytes(),
    ];
    for a in &samples {
        for b in &samples {
            assert_eq!(precedes(a, b), a < b);
            assert_eq!(same_bytes(a, b), a == b);
        }
    }
}

#[test]
fn numbers_are_spelled_big_endian_and_in_decimal() {
    assert_eq!(be32_bytes(0x01020304), [1, 2, 3, 4]);
    let mut v = vec![9];
    push_be32(&mut v, 5);
    push_be64(&mut v, 0x0102030405060708);
    assert_eq!(v, vec![9, 0, 0, 0, 5, 1, 2, 3, 4, 5, 6, 7, 8]);
    for n in [0, 7, 10, 507, 1000, u64::MAX] {
        assert_eq!(decimal(n), format!("{n}"));
    }
}

#[test]
fn pieces_have_the_length_they_should() {
    assert_eq!(prefix::<2>(&[1, 2, 3]), [1, 2]);
    assert_eq!(exactly::<3>(&[1, 2, 3]), Some([1, 2, 3]));
    assert_eq!(exactly::<2>(&[1, 2, 3]), None);
    assert_eq!(exactly::<0>(&[]), Some([]));
}

#[test]
fn texts_are_compared_and_joined_whole() {
    assert!(same_text("é", "é"));
    assert!(!same_text("é", "e\u{301}"));
    assert_eq!(join("a", "é"), "aé");
    assert_eq!(chars_of("aé\u{10ffff}"), vec!['a', 'é', '\u{10ffff}']);
    assert_eq!(hex(&[0x0a, 0xf0]), "0af0");
    assert_eq!(unhex("0Af0"), Some(vec![0x0a, 0xf0]));
}

#[test]
fn a_table_keeps_one_value_per_key_in_key_order() {
    let mut t: Table<u32> = Table::new();
    for (k, v) in [("b", 1), ("a", 2), ("c", 3), ("", 4), ("ab", 5), ("b", 6)] {
        t.insert(k.as_bytes(), v);
    }
    assert_eq!(t.len(), 5);
    let mut walked = Vec::new();
    for i in 0..t.len() {
        walked.push((t.key_at(i).clone(), *t.value_at(i)));
    }
    assert_eq!(
        walked,
        vec![
            (b"".to_vec(), 4),
            (b"a".to_vec(), 2),
            (b"ab".to_vec(), 5),
            (b"b".to_vec(), 6),
            (b"c".to_vec(), 3)
        ]
    );
    assert_eq!(t.find(b"ab"), Ok(2));
    assert_eq!(t.find(b"aa"), Err(2));
    assert_eq!(t.get(b"c"), Some(&3));
    assert_eq!(t.get(b"d"), None);
    assert_eq!(t.remove(b"a"), Some(2));
    assert_eq!(t.remove(b"a"), None);
    *t.value_at_mut(0) = 40;
    assert_eq!(t.get(b""), Some(&40));
    assert_eq!(t.remove_at(1), 5);
    assert_eq!(t.len(), 3);
}

#[test]
fn a_ranking_is_a_stable_sort_cut_short() {
    let keys: Vec<RankKey> = [(1, "b"), (3, "a"), (1, "a"), (3, "a"), (0, "z"), (2, "é"), (2, "z")]
        .iter()
        .map(|(w, id)| RankKey {
            weight: Some(*w),
            id: id.as_bytes().to_vec(),
        })
        .collect();
    let mut expected: Vec<usize> = (0..keys.len()).collect();
    expected.sort_by(|a, b| {
        keys[*b]
            .weight
            .cmp(&keys[*a].weight)
            .then_with(|| keys[*a].id.cmp(&keys[*b].id))
    });
    assert_eq!(expected, vec![1, 3, 6, 5, 2, 0, 4]);
    for limit in 0..10 {
        let cut: Vec<usize> = expected.iter().take(limit).copied().collect();
        assert_eq!(rank(&keys, limit), cut);
    }
}

#[test]
fn what_has_no_weight_ties_with_everything() {
    let key = |weight: Option<u64>, id: &str| RankKey {
        weight,
        id: id.as_bytes().to_vec(),
    };
    assert_eq!(rank(&vec![key(None, "a"), key(Some(5), "b")], 2), vec![0, 1]);
    assert_eq!(rank(&vec![key(None, "c"), key(Some(5), "b")], 2), vec![1, 0]);
    assert_eq!(rank(&vec![key(None, "b"), key(None, "a")], 9), vec![1, 0]);
    // No order there: "b" before "m" before "t" by name, and "t" before "b" by weight.
    let round = vec![key(Some(1), "b"), key(None, "m"), key(Some(2), "t")];
    let mut all = rank(&round, 3);
    all.sort();
    assert_eq!(all, vec![0, 1, 2]);
    assert_eq!(rank(&round, 2).len(), 2);
}
