use std::collections::HashSet;

use my_magic_adventure::block::Block;
use my_magic_adventure::chunk::{BlockEdits, BlockPos};
use my_magic_adventure::race::Race;
use my_magic_adventure::save::{
    id_to_race, next_free_slot, parse_edits, parse_save_text, player_file_text, race_to_id, serialize_edits,
    slot_id_of,
    sort_slot_ids,
};
use my_magic_adventure::text::{
    chars_of, next_line, parse_i32, parse_unsigned, push_i32, push_nat, trim, words,
};

fn cs(s: &str) -> Vec<char> {
    s.chars().collect()
}

fn text(v: &[char]) -> String {
    v.iter().collect()
}

#[test]
fn race_ids_round_trip() {
    let all = [Race::Sylvaris, Race::Ignaar, Race::Aethyn, Race::Vorkai, Race::Crysthari];
    for (i, r) in all.iter().enumerate() {
        assert_eq!(race_to_id(r), i as u8);
        assert_eq!(id_to_race(race_to_id(r)), *r);
    }
    assert_eq!(id_to_race(9), Race::Crysthari);
}

#[test]
fn numbers_parse_like_from_str() {
    assert_eq!(parse_unsigned(&cs("255"), 255), Some(255));
    assert_eq!(parse_unsigned(&cs("256"), 255), None);
    assert_eq!(parse_unsigned(&cs("+7"), 255), Some(7));
    assert_eq!(parse_unsigned(&cs("007"), 255), Some(7));
    assert_eq!(parse_unsigned(&cs("-1"), 255), None);
    assert_eq!(parse_unsigned(&cs("+"), 255), None);
    assert_eq!(parse_unsigned(&cs(""), 255), None);
    assert_eq!(parse_unsigned(&cs("1a"), 255), None);
    assert_eq!(parse_unsigned(&cs("4294967295"), 4294967295), Some(4294967295));
    assert_eq!(parse_unsigned(&cs("4294967296"), 4294967295), None);
    assert_eq!(parse_i32(&cs("-2147483648")), Some(i32::MIN));
    assert_eq!(parse_i32(&cs("2147483647")), Some(i32::MAX));
    assert_eq!(parse_i32(&cs("2147483648")), None);
    assert_eq!(parse_i32(&cs("-2147483649")), None);
    assert_eq!(parse_i32(&cs("-")), None);
    assert_eq!(parse_i32(&cs("+-3")), None);
    assert_eq!(parse_i32(&cs("-0")), Some(0));
    for s in ["0", "17", "-5", "+12", "x", " 3", "99999999999"] {
        assert_eq!(parse_i32(&cs(s)), s.parse::<i32>().ok(), "{}", s);
        assert_eq!(parse_unsigned(&cs(s), 255).map(|v| v as u8), s.parse::<u8>().ok(), "{}", s);
    }
}

#[test]
fn numbers_print_like_display() {
    let mut out = Vec::new();
    push_nat(&mut out, 0);
    out.push(' ');
    push_nat(&mut out, 4294967295);
    out.push(' ');
    push_i32(&mut out, -2147483648);
    out.push(' ');
    push_i32(&mut out, 305);
    assert_eq!(text(&out), "0 4294967295 -2147483648 305");
}

#[test]
fn words_lines_and_trim_follow_std() {
    for s in ["", "  a  b\tc ", "one", "\u{3000}x\u{85}y\u{a0}", " \n "] {
        let got: Vec<String> = words(&cs(s)).iter().map(|w| text(w)).collect();
        let want: Vec<String> = s.split_whitespace().map(|w| w.to_string()).collect();
        assert_eq!(got, want, "{:?}", s);
        let t = cs(s);
        assert_eq!(text(&trim(&t, 0, t.len())), s.trim(), "{:?}", s);
    }
    for s in ["a\nb\r\nc", "a\n", "\n\n", "x\r", "x\r\r\n", "", "last\r\nline\r\n"] {
        let v = cs(s);
        let mut got = Vec::new();
        let mut i = 0;
        while i < v.len() {
            let (line, next) = next_line(&v, i);
            got.push(text(&line));
            i = next;
        }
        let want: Vec<String> = s.lines().map(|l| l.to_string()).collect();
        assert_eq!(got, want, "{:?}", s);
    }
    assert_eq!(chars_of("héllo"), vec!['h', 'é', 'l', 'l', 'o']);
}

#[test]
fn edit_lists_are_read_line_by_line() {
    let body = "0 0 1 2 3 3\r\n-1 5 15 63 0 6\n  2   2 0 0 0 9  \nbad line\n1 2 3\n1 1 1 1 1 300\n0 0 1 2 3 0\n7 7 0 0 0 42";
    let e = parse_edits(body);
    assert_eq!(e.len(), 4);
    assert_eq!(e.for_chunk(0, 0).unwrap(), vec![((1, 2, 3), Block::Air)]);
    assert_eq!(e.for_chunk(-1, 5).unwrap(), vec![((15, 63, 0), Block::Wood)]);
    assert_eq!(e.for_chunk(2, 2).unwrap(), vec![((0, 0, 0), Block::Ice)]);
    assert_eq!(e.for_chunk(7, 7).unwrap(), vec![((0, 0, 0), Block::Air)]);
    assert!(e.for_chunk(1, 1).is_none());
    assert_eq!(parse_edits("").len(), 0);
}

#[test]
fn edits_survive_a_save_and_load() {
    let mut e = BlockEdits::new();
    e.record(BlockPos { x: -17, y: 3, z: 40 }, Block::Planks);
    e.record(BlockPos { x: 5, y: 63, z: -1 }, Block::Air);
    e.record(BlockPos { x: 2147483647, y: 0, z: -2147483648 }, Block::Leaves);
    e.record(BlockPos { x: 5, y: 63, z: -1 }, Block::Ice);
    let written = text(&serialize_edits(&e));
    assert_eq!(written.lines().count(), 3);
    assert!(written.contains("-2 2 15 3 8 8\n"));
    let back = parse_edits(&written);
    assert_eq!(back.len(), 3);
    for (cx, cz) in [(-2, 2), (0, -1), (134217727, -134217728)] {
        assert_eq!(back.for_chunk(cx, cz), e.for_chunk(cx, cz));
    }
}

#[test]
fn player_file_fields() {
    let f = parse_save_text("race=2\nname=Aventurier\npx=12.5\npy=64.0\npz=-4.2\nhp=85.0\nmana=70.0\n");
    assert_eq!(f.race_id, 2);
    assert_eq!(text(&f.name), "Aventurier");
    assert_eq!(f.px.iter().map(|v| text(v)).collect::<Vec<_>>(), vec!["12.5"]);
    assert_eq!(f.pz.iter().map(|v| text(v)).collect::<Vec<_>>(), vec!["-4.2"]);
    assert_eq!(f.mana.iter().map(|v| text(v)).collect::<Vec<_>>(), vec!["70.0"]);
}

#[test]
fn player_file_defaults_and_overrides() {
    let f = parse_save_text("");
    assert_eq!(f.race_id, 0);
    assert_eq!(text(&f.name), "Aventurier");
    assert!(f.hp.is_empty());
    let f = parse_save_text(" race = 4 \nname=  Zoe la Grande  \nrace=oops\nhp=1\nhp= x \nunknown=3\nnoequals\n name =a=b\n");
    assert_eq!(f.race_id, 0);
    assert_eq!(text(&f.name), "a=b");
    assert_eq!(f.hp.iter().map(|v| text(v)).collect::<Vec<_>>(), vec!["1", "x"]);
    let f = parse_save_text("race=3\r\n");
    assert_eq!(f.race_id, 3);
}

#[test]
fn slot_file_names() {
    assert_eq!(slot_id_of("save_3.txt"), Some(3));
    assert_eq!(slot_id_of("save_0.txt"), Some(0));
    assert_eq!(slot_id_of("save_+12.txt"), Some(12));
    assert_eq!(slot_id_of("save_3.edits"), None);
    assert_eq!(slot_id_of("save_.txt"), None);
    assert_eq!(slot_id_of("save_x.txt"), None);
    assert_eq!(slot_id_of("load_3.txt"), None);
    assert_eq!(slot_id_of(".txt"), None);
    assert_eq!(slot_id_of("save_3"), None);
    assert_eq!(slot_id_of("save_4294967296.txt"), None);
    assert_eq!(slot_id_of("save_1.2.txt"), None);
}

#[test]
fn free_slots_and_ordering() {
    assert_eq!(next_free_slot(&HashSet::new()), 0);
    assert_eq!(next_free_slot(&HashSet::from([0, 1, 3])), 2);
    assert_eq!(next_free_slot(&HashSet::from([2, 1, 0])), 3);
    assert_eq!(next_free_slot(&HashSet::from([5])), 0);
    assert_eq!(sort_slot_ids(&vec![4, 1, 3, 1, 0]), vec![0, 1, 1, 3, 4]);
    assert_eq!(sort_slot_ids(&vec![]), Vec::<u32>::new());
}

fn chars(s: &str) -> Vec<char> {
    s.chars().collect()
}

#[test]
fn player_file_reads_back() {
    let text = player_file_text(
        Race::Vorkai,
        &chars("Zoe la Grande"),
        &chars("12.5"),
        &chars("64"),
        &chars("-4.25"),
        &chars("85"),
        &chars("70.5"),
    );
    let body: String = text.into_iter().collect();
    assert_eq!(body, "race=3\nname=Zoe la Grande\npx=12.5\npy=64\npz=-4.25\nhp=85\nmana=70.5\n");
    let f = parse_save_text(&body);
    assert_eq!(id_to_race(f.race_id), Race::Vorkai);
    assert_eq!(f.name, chars("Zoe la Grande"));
    assert_eq!(f.px, vec![chars("12.5")]);
    assert_eq!(f.pz, vec![chars("-4.25")]);
    assert_eq!(f.mana, vec![chars("70.5")]);
}
