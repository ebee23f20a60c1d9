//! Save-file formats: the block-edit list (`cx cz lx ly lz id` per line),
//! the player file (`key=value` lines), slot file names, and the choice of
//! a free slot.

use std::collections::HashSet;

use vstd::prelude::*;

use crate::block::{block_to_id, id_to_block, spec_block_id, spec_id_block, Block};
use crate::chunk::{edit_key, edits_map, keys_distinct, BlockEdit, BlockEdits, EditKey};
use crate::race::Race;
use crate::text::{
    all_digits, chars_of, fmt_i32, fmt_nat, is_ws, lead_word, lead_ws, lemma_fmt_nat, lemma_lead_word,
    next_line, parse_i32, parse_unsigned, push_i32, push_nat, spec_lines, spec_parse_i32,
    spec_parse_unsigned, spec_words, words, law_parse_fmt_i32, law_parse_fmt_nat, first_newline,
    lemma_first_newline, strip_cr, spec_trim, trail_ws,
};

verus! {

// ---------------------------------------------------------------------------
// Race ids.

pub open spec fn spec_race_id(r: Race) -> u8 {
    match r {
        Race::Sylvaris => 0,
        Race::Ignaar => 1,
        Race::Aethyn => 2,
        Race::Vorkai => 3,
        Race::Crysthari => 4,
    }
}

pub open spec fn spec_id_race(id: u8) -> Race {
    if id == 0 {
        Race::Sylvaris
    } else if id == 1 {
        Race::Ignaar
    } else if id == 2 {
        Race::Aethyn
    } else if id == 3 {
        Race::Vorkai
    } else {
        Race::Crysthari
    }
}

/// Id of a race as written in save files.
pub fn race_to_id(r: &Race) -> (id: u8)
    ensures
        id == spec_race_id(*r),
{
    match r {
        Race::Sylvaris => 0,
        Race::Ignaar => 1,
        Race::Aethyn => 2,
        Race::Vorkai => 3,
        Race::Crysthari => 4,
    }
}

/// Race of a stored id; ids past the last race read as the last race.
pub fn id_to_race(id: u8) -> (r: Race)
    ensures
        r == spec_id_race(id),
{
    match id {
        0 => Race::Sylvaris,
        1 => Race::Ignaar,
        2 => Race::Aethyn,
        3 => Race::Vorkai,
        _ => Race::Crysthari,
    }
}

/// A saved race reads back as itself, and each id up to 4 names the race
/// that writes it.
pub proof fn law_race_id_roundtrip(r: Race, id: u8)
    ensures
        spec_id_race(spec_race_id(r)) == r,
        id <= 4 ==> spec_race_id(spec_id_race(id)) == id,
{
}

// ---------------------------------------------------------------------------
// The block-edit list.

/// One edit as a line: `cx cz lx ly lz id`.
pub open spec fn edit_line(e: BlockEdit) -> Seq<char> {
    fmt_i32(e.chunk.0) + seq![' '] + fmt_i32(e.chunk.1) + seq![' '] + fmt_nat(e.local.0 as nat)
        + seq![' '] + fmt_nat(e.local.1 as nat) + seq![' '] + fmt_nat(e.local.2 as nat) + seq![' ']
        + fmt_nat(spec_block_id(e.block) as nat)
}

/// A list of edits as text, one line each, each ended by `'\n'`.
pub open spec fn edits_text(es: Seq<BlockEdit>) -> Seq<char>
    decreases es.len(),
{
    if es.len() == 0 {
        Seq::empty()
    } else {
        edits_text(es.drop_last()) + edit_line(es.last()) + seq!['\n']
    }
}

/// The edit a line stands for: exactly six words, two `i32` then four
/// `u8`, the last one a block id (unknown ids read as Air).
pub open spec fn spec_parse_edit_line(line: Seq<char>) -> Option<BlockEdit> {
    let w = spec_words(line);
    if w.len() != 6 {
        None
    } else {
        match (
            spec_parse_i32(w[0]),
            spec_parse_i32(w[1]),
            spec_parse_unsigned(w[2], 255),
            spec_parse_unsigned(w[3], 255),
            spec_parse_unsigned(w[4], 255),
            spec_parse_unsigned(w[5], 255),
        ) {
            (Some(cx), Some(cz), Some(lx), Some(ly), Some(lz), Some(id)) => Some(
                BlockEdit {
                    chunk: (cx as i32, cz as i32),
                    local: (lx as u8, ly as u8, lz as u8),
                    block: spec_id_block(id as u8),
                },
            ),
            _ => None,
        }
    }
}

/// The edits of the well-formed lines, in order; other lines are skipped.
pub open spec fn parse_edit_lines(ls: Seq<Seq<char>>) -> Seq<BlockEdit>
    decreases ls.len(),
{
    if ls.len() == 0 {
        Seq::empty()
    } else {
        let rest = parse_edit_lines(ls.drop_first());
        match spec_parse_edit_line(ls[0]) {
            Some(e) => seq![e] + rest,
            None => rest,
        }
    }
}

/// The edits that a text lists, in order.
pub open spec fn spec_parsed_edits(text: Seq<char>) -> Seq<BlockEdit> {
    parse_edit_lines(spec_lines(text))
}

fn parse_edit_line(line: &Vec<char>) -> (r: Option<BlockEdit>)
    ensures
        r == spec_parse_edit_line(line@),
{
    let w = words(line);
    if w.len() != 6 {
        return None;
    }
    let cx = parse_i32(&w[0]);
    let cz = parse_i32(&w[1]);
    let lx = parse_unsigned(&w[2], 255);
    let ly = parse_unsigned(&w[3], 255);
    let lz = parse_unsigned(&w[4], 255);
    let id = parse_unsigned(&w[5], 255);
    match (cx, cz, lx, ly, lz, id) {
        (Some(cx), Some(cz), Some(lx), Some(ly), Some(lz), Some(id)) => {
            let block = id_to_block(id as u8);
            Some(BlockEdit { chunk: (cx, cz), local: (lx as u8, ly as u8, lz as u8), block })
        },
        _ => None,
    }
}

/// Reads an edit list: each line with six well-formed words sets the edit
/// of its cell, a later line for the same cell winning; other lines are
/// skipped.
pub fn parse_edits(text: &str) -> (r: BlockEdits)
    ensures
        r.wf(),
        r@ == edits_map(spec_parsed_edits(text@)),
{
    let s = chars_of(text);
    let mut out = BlockEdits::new();
    let ghost mut acc: Seq<BlockEdit> = Seq::empty();
    let mut i: usize = 0;
    proof {
        assert(s@.skip(0) =~= s@);
        assert(acc + parse_edit_lines(spec_lines(s@.skip(0))) =~= spec_parsed_edits(text@));
    }
    while i < s.len()
        invariant
            i <= s.len(),
            s@ == text@,
            out.wf(),
            out@ == edits_map(acc),
            acc + parse_edit_lines(spec_lines(s@.skip(i as int))) == spec_parsed_edits(text@),
        decreases s.len() - i,
    {
        let (line, next) = next_line(&s, i);
        let ghost ls = spec_lines(s@.skip(i as int));
        assert(ls.drop_first() =~= spec_lines(s@.skip(next as int)));
        assert(ls[0] == line@);
        match parse_edit_line(&line) {
            Some(e) => {
                out.insert(e.chunk, e.local, e.block);
                proof {
                    let old_acc = acc;
                    acc = acc.push(e);
                    assert(acc.drop_last() =~= old_acc);
                    assert(acc + parse_edit_lines(spec_lines(s@.skip(next as int))) =~= old_acc
                        + parse_edit_lines(ls));
                }
            },
            None => {},
        }
        i = next;
    }
    proof {
        assert(s@.skip(i as int) =~= Seq::<char>::empty());
        assert(spec_lines(Seq::<char>::empty()) =~= Seq::<Seq<char>>::empty());
        assert(acc =~= spec_parsed_edits(text@));
    }
    out
}

fn push_edit_line(out: &mut Vec<char>, e: BlockEdit)
    ensures
        final(out)@ == old(out)@ + edit_line(e),
{
    push_i32(out, e.chunk.0);
    out.push(' ');
    push_i32(out, e.chunk.1);
    out.push(' ');
    push_nat(out, e.local.0 as u32);
    out.push(' ');
    push_nat(out, e.local.1 as u32);
    out.push(' ');
    push_nat(out, e.local.2 as u32);
    out.push(' ');
    push_nat(out, block_to_id(e.block) as u32);
    assert(final(out)@ =~= old(out)@ + edit_line(e));
}

/// Writes every edit as a line `cx cz lx ly lz id`, each cell once, in the
/// order the edits are kept.
pub fn serialize_edits(edits: &BlockEdits) -> (r: Vec<char>)
    requires
        edits.wf(),
    ensures
        exists|es: Seq<BlockEdit>| keys_distinct(es) && edits_map(es) == edits@ && r@ == edits_text(es),
{
    let es = edits.entries();
    let mut out: Vec<char> = Vec::new();
    let mut i: usize = 0;
    while i < es.len()
        invariant
            i <= es.len(),
            out@ == edits_text(es@.take(i as int)),
        decreases es.len() - i,
    {
        push_edit_line(&mut out, es[i]);
        out.push('\n');
        proof {
            assert(es@.take(i + 1).drop_last() =~= es@.take(i as int));
        }
        i = i + 1;
    }
    assert(es@.take(es.len() as int) =~= es@);
    out
}

// ---------------------------------------------------------------------------
// Reading back what was written.

/// A non-empty run of characters none of which is whitespace.
pub open spec fn solid_word(t: Seq<char>) -> bool {
    t.len() > 0 && forall|i: int| 0 <= i < t.len() ==> !is_ws(#[trigger] t[i])
}

proof fn lemma_lead_word_of(t: Seq<char>, y: Seq<char>)
    requires
        forall|i: int| 0 <= i < t.len() ==> !is_ws(#[trigger] t[i]),
        y.len() == 0 || is_ws(y[0]),
    ensures
        lead_word(t + y) == t.len(),
    decreases t.len(),
{
    if t.len() == 0 {
        assert(t + y =~= y);
    } else {
        assert((t + y).drop_first() =~= t.drop_first() + y);
        assert((t + y)[0] == t[0]);
        assert forall|i: int| 0 <= i < t.drop_first().len() implies !is_ws(#[trigger] t.drop_first()[i]) by {
            assert(t.drop_first()[i] == t[i + 1]);
        }
        lemma_lead_word_of(t.drop_first(), y);
    }
}

proof fn lemma_words_space(r: Seq<char>)
    ensures
        spec_words(seq![' '] + r) == spec_words(r),
{
    let s = seq![' '] + r;
    assert(s.drop_first() =~= r);
    assert(is_ws(s[0]));
    assert(lead_ws(s) == 1 + lead_ws(r));
    crate::text::lemma_lead_ws(r);
    assert(s.skip(lead_ws(s) as int) =~= r.skip(lead_ws(r) as int));
}

proof fn lemma_words_cons(t: Seq<char>, r: Seq<char>)
    requires
        solid_word(t),
    ensures
        spec_words(t + seq![' '] + r) == seq![t] + spec_words(r),
{
    let s = t + seq![' '] + r;
    assert(s[0] == t[0]);
    assert(lead_ws(s) == 0);
    assert(s.skip(0) =~= s);
    assert(s =~= t + (seq![' '] + r));
    lemma_lead_word_of(t, seq![' '] + r);
    assert(s.take(t.len() as int) =~= t);
    assert(s.skip(t.len() as int) =~= seq![' '] + r);
    lemma_words_space(r);
}

proof fn lemma_words_single(t: Seq<char>)
    requires
        solid_word(t),
    ensures
        spec_words(t) == seq![t],
{
    assert(lead_ws(t) == 0);
    assert(t.skip(0) =~= t);
    lemma_lead_word_of(t, Seq::empty());
    assert(t + Seq::<char>::empty() =~= t);
    assert(t.take(t.len() as int) =~= t);
    assert(t.skip(t.len() as int) =~= Seq::<char>::empty());
    assert(spec_words(Seq::<char>::empty()) =~= Seq::<Seq<char>>::empty());
    assert(seq![t] + Seq::<Seq<char>>::empty() =~= seq![t]);
}

proof fn lemma_digits_solid(n: nat)
    ensures
        solid_word(fmt_nat(n)),
        forall|i: int| 0 <= i < fmt_nat(n).len() ==> #[trigger] fmt_nat(n)[i] != '\n' && fmt_nat(n)[i]
            != '\r',
{
    lemma_fmt_nat(n);
}

proof fn lemma_i32_solid(v: i32)
    ensures
        solid_word(fmt_i32(v)),
        forall|i: int| 0 <= i < fmt_i32(v).len() ==> #[trigger] fmt_i32(v)[i] != '\n' && fmt_i32(v)[i]
            != '\r',
{
    if v < 0 {
        let m = (-(v as int)) as nat;
        lemma_fmt_nat(m);
        let s = fmt_i32(v);
        assert forall|i: int| 0 <= i < s.len() implies !is_ws(#[trigger] s[i]) && s[i] != '\n' && s[i]
            != '\r' by {
            if i > 0 {
                assert(s[i] == fmt_nat(m)[i - 1]);
            }
        }
    } else {
        lemma_fmt_nat(v as nat);
    }
}

proof fn lemma_edit_line_words(e: BlockEdit)
    ensures
        spec_words(edit_line(e)) == seq![
            fmt_i32(e.chunk.0),
            fmt_i32(e.chunk.1),
            fmt_nat(e.local.0 as nat),
            fmt_nat(e.local.1 as nat),
            fmt_nat(e.local.2 as nat),
            fmt_nat(spec_block_id(e.block) as nat),
        ],
{
    let a = fmt_i32(e.chunk.0);
    let b = fmt_i32(e.chunk.1);
    let c = fmt_nat(e.local.0 as nat);
    let d = fmt_nat(e.local.1 as nat);
    let f = fmt_nat(e.local.2 as nat);
    let g = fmt_nat(spec_block_id(e.block) as nat);
    let sp = seq![' '];
    lemma_i32_solid(e.chunk.0);
    lemma_i32_solid(e.chunk.1);
    lemma_digits_solid(e.local.0 as nat);
    lemma_digits_solid(e.local.1 as nat);
    lemma_digits_solid(e.local.2 as nat);
    lemma_digits_solid(spec_block_id(e.block) as nat);
    let r5 = g;
    let r4 = f + sp + r5;
    let r3 = d + sp + r4;
    let r2 = c + sp + r3;
    let r1 = b + sp + r2;
    assert(edit_line(e) =~= a + sp + r1);
    lemma_words_single(g);
    lemma_words_cons(f, r5);
    lemma_words_cons(d, r4);
    lemma_words_cons(c, r3);
    lemma_words_cons(b, r2);
    lemma_words_cons(a, r1);
    assert(spec_words(edit_line(e)) =~= seq![a, b, c, d, f, g]);
}

proof fn lemma_edit_line_parses(e: BlockEdit)
    ensures
        spec_parse_edit_line(edit_line(e)) == Some(e),
{
    lemma_edit_line_words(e);
    law_parse_fmt_i32(e.chunk.0);
    law_parse_fmt_i32(e.chunk.1);
    law_parse_fmt_nat(e.local.0 as nat, 255);
    law_parse_fmt_nat(e.local.1 as nat, 255);
    law_parse_fmt_nat(e.local.2 as nat, 255);
    law_parse_fmt_nat(spec_block_id(e.block) as nat, 255);
    crate::block::lemma_block_id_roundtrip(e.block);
}

proof fn lemma_edit_line_plain(e: BlockEdit)
    ensures
        forall|i: int| 0 <= i < edit_line(e).len() ==> #[trigger] edit_line(e)[i] != '\n',
        edit_line(e).len() > 0 && edit_line(e).last() != '\r',
{
    let a = fmt_i32(e.chunk.0);
    let b = fmt_i32(e.chunk.1);
    let c = fmt_nat(e.local.0 as nat);
    let d = fmt_nat(e.local.1 as nat);
    let f = fmt_nat(e.local.2 as nat);
    let g = fmt_nat(spec_block_id(e.block) as nat);
    lemma_i32_solid(e.chunk.0);
    lemma_i32_solid(e.chunk.1);
    lemma_digits_solid(e.local.0 as nat);
    lemma_digits_solid(e.local.1 as nat);
    lemma_digits_solid(e.local.2 as nat);
    lemma_digits_solid(spec_block_id(e.block) as nat);
    let l = edit_line(e);
    assert forall|i: int| 0 <= i < l.len() implies #[trigger] l[i] != '\n' by {
        let n1 = a.len();
        let n2 = n1 + 1 + b.len();
        let n3 = n2 + 1 + c.len();
        let n4 = n3 + 1 + d.len();
        let n5 = n4 + 1 + f.len();
        if i < n1 {
            assert(l[i] == a[i]);
        } else if i == n1 {
        } else if i < n2 {
            assert(l[i] == b[i - n1 - 1]);
        } else if i == n2 {
        } else if i < n3 {
            assert(l[i] == c[i - n2 - 1]);
        } else if i == n3 {
        } else if i < n4 {
            assert(l[i] == d[i - n3 - 1]);
        } else if i == n4 {
        } else if i < n5 {
            assert(l[i] == f[i - n4 - 1]);
        } else if i == n5 {
        } else {
            assert(l[i] == g[i - n5 - 1]);
        }
    }
    assert(l.last() == g.last());
}

proof fn lemma_first_newline_of(l: Seq<char>, r: Seq<char>)
    requires
        forall|i: int| 0 <= i < l.len() ==> #[trigger] l[i] != '\n',
    ensures
        first_newline(l + seq!['\n'] + r) == l.len(),
    decreases l.len(),
{
    let s = l + seq!['\n'] + r;
    if l.len() == 0 {
        assert(s[0] == '\n');
    } else {
        assert(s[0] == l[0]);
        assert(s.drop_first() =~= l.drop_first() + seq!['\n'] + r);
        assert forall|i: int| 0 <= i < l.drop_first().len() implies #[trigger] l.drop_first()[i] != '\n' by {
            assert(l.drop_first()[i] == l[i + 1]);
        }
        lemma_first_newline_of(l.drop_first(), r);
    }
}

proof fn lemma_lines_cons(l: Seq<char>, r: Seq<char>)
    requires
        forall|i: int| 0 <= i < l.len() ==> #[trigger] l[i] != '\n',
        l.len() == 0 || l.last() != '\r',
    ensures
        spec_lines(l + seq!['\n'] + r) == seq![l] + spec_lines(r),
{
    let s = l + seq!['\n'] + r;
    lemma_first_newline_of(l, r);
    assert(s.take(l.len() as int) =~= l);
    assert(s.skip(l.len() + 1int) =~= r);
    assert(strip_cr(l, true) == l);
}

proof fn lemma_edits_text_front(es: Seq<BlockEdit>)
    requires
        es.len() > 0,
    ensures
        edits_text(es) == edit_line(es[0]) + seq!['\n'] + edits_text(es.drop_first()),
    decreases es.len(),
{
    if es.len() == 1 {
        assert(es.drop_last() =~= Seq::<BlockEdit>::empty());
        assert(es.drop_first() =~= Seq::<BlockEdit>::empty());
        assert(edits_text(es) =~= edit_line(es[0]) + seq!['\n'] + edits_text(es.drop_first()));
    } else {
        lemma_edits_text_front(es.drop_last());
        assert(es.drop_last().drop_first() =~= es.drop_first().drop_last());
        assert(es.drop_first().last() == es.last());
        assert(edits_text(es) =~= edit_line(es[0]) + seq!['\n'] + edits_text(es.drop_first()));
    }
}

/// Reading back a written edit list gives the same edits in the same
/// order.
pub proof fn law_edits_text_roundtrip(es: Seq<BlockEdit>)
    ensures
        spec_parsed_edits(edits_text(es)) == es,
    decreases es.len(),
{
    if es.len() == 0 {
        assert(spec_lines(Seq::<char>::empty()) =~= Seq::<Seq<char>>::empty());
    } else {
        lemma_edits_text_front(es);
        lemma_edit_line_plain(es[0]);
        lemma_lines_cons(edit_line(es[0]), edits_text(es.drop_first()));
        lemma_edit_line_parses(es[0]);
        law_edits_text_roundtrip(es.drop_first());
        let ls = spec_lines(edits_text(es));
        assert(ls.drop_first() =~= spec_lines(edits_text(es.drop_first())));
        assert(spec_parsed_edits(edits_text(es)) =~= es);
    }
}

/// Saving the edits and reading the file back gives the same edits: for
/// every text that `serialize_edits` may write for `edits`, `parse_edits`
/// of it holds exactly the edits of `edits`.
pub proof fn law_edits_save_load(es: Seq<BlockEdit>, m: Map<EditKey, Block>)
    requires
        keys_distinct(es),
        edits_map(es) == m,
    ensures
        edits_map(spec_parsed_edits(edits_text(es))) == m,
{
    law_edits_text_roundtrip(es);
}

// ---------------------------------------------------------------------------
// The player file: `key=value` lines.

/// Index of the first `'='` in `s`, or its length.
pub open spec fn first_eq(s: Seq<char>) -> nat
    decreases s.len(),
{
    if s.len() == 0 {
        0
    } else if s[0] == '=' {
        0
    } else {
        1 + first_eq(s.drop_first())
    }
}

proof fn lemma_first_eq(s: Seq<char>)
    ensures
        first_eq(s) <= s.len(),
        forall|i: int| 0 <= i < first_eq(s) ==> #[trigger] s[i] != '=',
        first_eq(s) < s.len() ==> s[first_eq(s) as int] == '=',
    decreases s.len(),
{
    if s.len() > 0 && s[0] != '=' {
        lemma_first_eq(s.drop_first());
        assert forall|i: int| 0 <= i < first_eq(s) implies #[trigger] s[i] != '=' by {
            if i > 0 {
                assert(s[i] == s.drop_first()[i - 1]);
            }
        }
    }
}

/// Key and value of a `key=value` line, both trimmed; `None` without `'='`.
pub open spec fn spec_key_value(line: Seq<char>) -> Option<(Seq<char>, Seq<char>)> {
    let e = first_eq(line);
    if e >= line.len() {
        None
    } else {
        Some((crate::text::spec_trim(line.take(e as int)), crate::text::spec_trim(line.skip(e + 1int))))
    }
}

/// Race id after the given lines: the last `race` line decides, a value
/// that is not a number up to 255 reading as 0; 0 without such a line.
pub open spec fn race_field(ls: Seq<Seq<char>>) -> u8
    decreases ls.len(),
{
    if ls.len() == 0 {
        0
    } else {
        match spec_key_value(ls.last()) {
            Some((k, v)) if k == "race"@ => match spec_parse_unsigned(v, 255) {
                Some(n) => n as u8,
                None => 0,
            },
            _ => race_field(ls.drop_last()),
        }
    }
}

/// Name after the given lines: the value of the last `name` line;
/// "Aventurier" without such a line.
pub open spec fn name_field(ls: Seq<Seq<char>>) -> Seq<char>
    decreases ls.len(),
{
    if ls.len() == 0 {
        "Aventurier"@
    } else {
        match spec_key_value(ls.last()) {
            Some((k, v)) if k == "name"@ => v,
            _ => name_field(ls.drop_last()),
        }
    }
}

/// The values of every line with the given key, in order.
pub open spec fn key_values(ls: Seq<Seq<char>>, key: Seq<char>) -> Seq<Seq<char>>
    decreases ls.len(),
{
    if ls.len() == 0 {
        Seq::empty()
    } else {
        let prev = key_values(ls.drop_last(), key);
        match spec_key_value(ls.last()) {
            Some((k, v)) if k == key => prev.push(v),
            _ => prev,
        }
    }
}

/// What a player file holds. Position, health and mana are decimal
/// numbers; each comes as the list of values its lines gave, in order, for
/// the reader to fold: a value that does not parse keeps the one before.
pub struct SaveFields {
    pub race_id: u8,
    pub name: Vec<char>,
    pub px: Vec<Vec<char>>,
    pub py: Vec<Vec<char>>,
    pub pz: Vec<Vec<char>>,
    pub hp: Vec<Vec<char>>,
    pub mana: Vec<Vec<char>>,
}

pub open spec fn vec_views(v: Seq<Vec<char>>) -> Seq<Seq<char>> {
    v.map_values(|w: Vec<char>| w@)
}

/// The fields read from the given lines.
pub open spec fn fields_match(f: SaveFields, ls: Seq<Seq<char>>) -> bool {
    &&& f.race_id == race_field(ls)
    &&& f.name@ == name_field(ls)
    &&& vec_views(f.px@) == key_values(ls, "px"@)
    &&& vec_views(f.py@) == key_values(ls, "py"@)
    &&& vec_views(f.pz@) == key_values(ls, "pz"@)
    &&& vec_views(f.hp@) == key_values(ls, "hp"@)
    &&& vec_views(f.mana@) == key_values(ls, "mana"@)
}

proof fn lemma_views_push(s: Seq<Vec<char>>, x: Vec<char>)
    ensures
        vec_views(s.push(x)) == vec_views(s).push(x@),
{
    assert(vec_views(s.push(x)) =~= vec_views(s).push(x@));
}

proof fn lemma_fields_step(done: Seq<Seq<char>>, line: Seq<char>)
    ensures
        ({
            let d = done.push(line);
            &&& forall|key: Seq<char>|
                #[trigger] key_values(d, key) == match spec_key_value(line) {
                    Some((k, v)) => if k == key {
                        key_values(done, key).push(v)
                    } else {
                        key_values(done, key)
                    },
                    None => key_values(done, key),
                }
            &&& race_field(d) == match spec_key_value(line) {
                Some((k, v)) => if k == "race"@ {
                    match spec_parse_unsigned(v, 255) {
                        Some(n) => n as u8,
                        None => 0,
                    }
                } else {
                    race_field(done)
                },
                None => race_field(done),
            }
            &&& name_field(d) == match spec_key_value(line) {
                Some((k, v)) => if k == "name"@ {
                    v
                } else {
                    name_field(done)
                },
                None => name_field(done),
            }
        }),
{
    let d = done.push(line);
    assert(d.drop_last() =~= done);
    assert(d.last() == line);
}

fn same_chars(v: &Vec<char>, lit: &Vec<char>) -> (r: bool)
    ensures
        r == (v@ == lit@),
{
    if v.len() != lit.len() {
        return false;
    }
    let mut i: usize = 0;
    while i < v.len()
        invariant
            i <= v.len(),
            v.len() == lit.len(),
            forall|k: int| 0 <= k < i ==> v@[k] == lit@[k],
        decreases v.len() - i,
    {
        if v[i] != lit[i] {
            return false;
        }
        i = i + 1;
    }
    assert(v@ =~= lit@);
    true
}

fn key_value(line: &Vec<char>) -> (r: Option<(Vec<char>, Vec<char>)>)
    ensures
        match spec_key_value(line@) {
            Some((k, v)) => r matches Some((rk, rv)) && rk@ == k && rv@ == v,
            None => r is None,
        },
{
    proof {
        lemma_first_eq(line@);
    }
    let mut e: usize = 0;
    while e < line.len() && line[e] != '='
        invariant
            e <= line.len(),
            e <= first_eq(line@),
            first_eq(line@) <= line@.len(),
            forall|i: int| 0 <= i < first_eq(line@) ==> #[trigger] line@[i] != '=',
            first_eq(line@) < line@.len() ==> line@[first_eq(line@) as int] == '=',
        decreases line.len() - e,
    {
        e = e + 1;
    }
    if e == line.len() {
        return None;
    }
    let k = crate::text::trim(line, 0, e);
    let v = crate::text::trim(line, e + 1, line.len());
    assert(line@.subrange(0, e as int) =~= line@.take(e as int));
    assert(line@.subrange(e + 1, line.len() as int) =~= line@.skip(e + 1));
    Some((k, v))
}

pub open spec fn parse_or_zero(v: Seq<char>) -> u8 {
    match spec_parse_unsigned(v, 255) {
        Some(n) => n as u8,
        None => 0,
    }
}

pub open spec fn list_step(l: Seq<Seq<char>>, k: Seq<char>, v: Seq<char>, key: Seq<char>) -> Seq<Seq<char>> {
    if k == key {
        l.push(v)
    } else {
        l
    }
}

/// Stores the value of one `key=value` line.
fn store_field(f: &mut SaveFields, k: &Vec<char>, v: Vec<char>)
    ensures
        final(f).race_id == (if k@ == "race"@ {
            parse_or_zero(v@)
        } else {
            old(f).race_id
        }),
        final(f).name@ == (if k@ == "name"@ {
            v@
        } else {
            old(f).name@
        }),
        vec_views(final(f).px@) == list_step(vec_views(old(f).px@), k@, v@, "px"@),
        vec_views(final(f).py@) == list_step(vec_views(old(f).py@), k@, v@, "py"@),
        vec_views(final(f).pz@) == list_step(vec_views(old(f).pz@), k@, v@, "pz"@),
        vec_views(final(f).hp@) == list_step(vec_views(old(f).hp@), k@, v@, "hp"@),
        vec_views(final(f).mana@) == list_step(vec_views(old(f).mana@), k@, v@, "mana"@),
{
    proof {
        reveal_strlit("race");
        reveal_strlit("name");
        reveal_strlit("px");
        reveal_strlit("py");
        reveal_strlit("pz");
        reveal_strlit("hp");
        reveal_strlit("mana");
        assert("race"@.len() == 4 && "race"@[0] == 'r');
        assert("name"@.len() == 4 && "name"@[0] == 'n');
        assert("mana"@.len() == 4 && "mana"@[0] == 'm');
        assert("px"@.len() == 2 && "px"@[0] == 'p' && "px"@[1] == 'x');
        assert("py"@.len() == 2 && "py"@[0] == 'p' && "py"@[1] == 'y');
        assert("pz"@.len() == 2 && "pz"@[0] == 'p' && "pz"@[1] == 'z');
        assert("hp"@.len() == 2 && "hp"@[0] == 'h');
        lemma_views_push(f.px@, v);
        lemma_views_push(f.py@, v);
        lemma_views_push(f.pz@, v);
        lemma_views_push(f.hp@, v);
        lemma_views_push(f.mana@, v);
    }
    let k_race = chars_of("race");
    let k_name = chars_of("name");
    let k_px = chars_of("px");
    let k_py = chars_of("py");
    let k_pz = chars_of("pz");
    let k_hp = chars_of("hp");
    let k_mana = chars_of("mana");
    if same_chars(k, &k_race) {
        f.race_id = match parse_unsigned(&v, 255) {
            Some(n) => n as u8,
            None => 0,
        };
    } else if same_chars(k, &k_name) {
        f.name = v;
    } else if same_chars(k, &k_px) {
        f.px.push(v);
    } else if same_chars(k, &k_py) {
        f.py.push(v);
    } else if same_chars(k, &k_pz) {
        f.pz.push(v);
    } else if same_chars(k, &k_hp) {
        f.hp.push(v);
    } else if same_chars(k, &k_mana) {
        f.mana.push(v);
    }
}

/// Reads a player file: the race id, the name and the raw values of the
/// numeric fields, the last line of each key deciding race and name.
pub fn parse_save_text(text: &str) -> (r: SaveFields)
    ensures
        fields_match(r, spec_lines(text@)),
{
    let s = chars_of(text);
    let mut f = SaveFields {
        race_id: 0,
        name: chars_of("Aventurier"),
        px: Vec::new(),
        py: Vec::new(),
        pz: Vec::new(),
        hp: Vec::new(),
        mana: Vec::new(),
    };
    let ghost mut done: Seq<Seq<char>> = Seq::empty();
    proof {
        assert(s@.skip(0) =~= s@);
        assert(done + spec_lines(s@.skip(0)) =~= spec_lines(text@));
        assert(vec_views(f.px@) =~= Seq::<Seq<char>>::empty());
        assert(vec_views(f.py@) =~= Seq::<Seq<char>>::empty());
        assert(vec_views(f.pz@) =~= Seq::<Seq<char>>::empty());
        assert(vec_views(f.hp@) =~= Seq::<Seq<char>>::empty());
        assert(vec_views(f.mana@) =~= Seq::<Seq<char>>::empty());
    }
    let mut i: usize = 0;
    while i < s.len()
        invariant
            i <= s.len(),
            s@ == text@,
            done + spec_lines(s@.skip(i as int)) == spec_lines(text@),
            fields_match(f, done),
        decreases s.len() - i,
    {
        let (line, next) = next_line(&s, i);
        let ghost ls = spec_lines(s@.skip(i as int));
        let ghost old_done = done;
        let ghost old_f = f;
        proof {
            reveal_strlit("race");
            reveal_strlit("name");
            reveal_strlit("px");
            reveal_strlit("py");
            reveal_strlit("pz");
            reveal_strlit("hp");
            reveal_strlit("mana");
            assert(ls.drop_first() =~= spec_lines(s@.skip(next as int)));
            assert(ls[0] == line@);
            done = done.push(line@);
            assert(done + spec_lines(s@.skip(next as int)) =~= old_done + ls);
        }
        proof {
            lemma_fields_step(old_done, line@);
        }
        match key_value(&line) {
            Some((k, v)) => {
                store_field(&mut f, &k, v);
            },
            None => {},
        }
        i = next;
    }
    proof {
        assert(s@.skip(i as int) =~= Seq::<char>::empty());
        assert(spec_lines(Seq::<char>::empty()) =~= Seq::<Seq<char>>::empty());
        assert(done =~= spec_lines(text@));
    }
    f
}

// ---------------------------------------------------------------------------
// Writing the player file, and reading it back.

/// A `key=value` line.
pub open spec fn kv_line(key: Seq<char>, v: Seq<char>) -> Seq<char> {
    key + seq!['='] + v
}

/// Lines joined, each ended by `'\n'`.
pub open spec fn joined_lines(ls: Seq<Seq<char>>) -> Seq<char>
    decreases ls.len(),
{
    if ls.len() == 0 {
        Seq::empty()
    } else {
        joined_lines(ls.drop_last()) + ls.last() + seq!['\n']
    }
}

/// The lines of a player file as the game writes it: the race id, the name,
/// the position, health and mana, in that order. The numbers other than the
/// race id come as the text they are written as.
pub open spec fn player_lines(
    race: Race,
    name: Seq<char>,
    px: Seq<char>,
    py: Seq<char>,
    pz: Seq<char>,
    hp: Seq<char>,
    mana: Seq<char>,
) -> Seq<Seq<char>> {
    seq![
        kv_line("race"@, fmt_nat(spec_race_id(race) as nat)),
        kv_line("name"@, name),
        kv_line("px"@, px),
        kv_line("py"@, py),
        kv_line("pz"@, pz),
        kv_line("hp"@, hp),
        kv_line("mana"@, mana),
    ]
}

/// A value that reads back as written: one line, without whitespace at
/// either end.
pub open spec fn plain_value(v: Seq<char>) -> bool {
    &&& forall|i: int| 0 <= i < v.len() ==> #[trigger] v[i] != '\n'
    &&& v.len() > 0 ==> !is_ws(v[0]) && !is_ws(v.last())
}

proof fn lemma_trim_plain(v: Seq<char>)
    requires
        v.len() > 0 ==> !is_ws(v[0]) && !is_ws(v.last()),
    ensures
        spec_trim(v) == v,
{
    if v.len() > 0 {
        assert(lead_ws(v) == 0);
        assert(trail_ws(v) == 0);
        assert(v.subrange(0, v.len() as int) =~= v);
    }
}

proof fn lemma_first_eq_of(k: Seq<char>, v: Seq<char>)
    requires
        forall|i: int| 0 <= i < k.len() ==> #[trigger] k[i] != '=',
    ensures
        first_eq(k + seq!['='] + v) == k.len(),
    decreases k.len(),
{
    let s = k + seq!['='] + v;
    if k.len() == 0 {
        assert(s[0] == '=');
    } else {
        assert(s[0] == k[0]);
        assert(s.drop_first() =~= k.drop_first() + seq!['='] + v);
        assert forall|i: int| 0 <= i < k.drop_first().len() implies #[trigger] k.drop_first()[i] != '=' by {
            assert(k.drop_first()[i] == k[i + 1]);
        }
        lemma_first_eq_of(k.drop_first(), v);
    }
}

proof fn lemma_kv_line(k: Seq<char>, v: Seq<char>)
    requires
        forall|i: int| 0 <= i < k.len() ==> #[trigger] k[i] != '=' && k[i] != '\n',
        k.len() > 0,
        !is_ws(k[0]),
        !is_ws(k.last()),
        plain_value(v),
    ensures
        spec_key_value(kv_line(k, v)) == Some((k, v)),
        forall|i: int| 0 <= i < kv_line(k, v).len() ==> #[trigger] kv_line(k, v)[i] != '\n',
        kv_line(k, v).last() != '\r',
{
    let l = kv_line(k, v);
    lemma_first_eq_of(k, v);
    assert(l.take(k.len() as int) =~= k);
    assert(l.skip(k.len() + 1int) =~= v);
    lemma_trim_plain(k);
    lemma_trim_plain(v);
    assert forall|i: int| 0 <= i < l.len() implies #[trigger] l[i] != '\n' by {
        if i < k.len() {
            assert(l[i] == k[i]);
        } else if i > k.len() {
            assert(l[i] == v[i - k.len() - 1]);
        }
    }
    assert('\r' as u32 == 13);
    if v.len() > 0 {
        assert(l.last() == v.last());
    }
}

proof fn lemma_joined_front(ls: Seq<Seq<char>>)
    requires
        ls.len() > 0,
    ensures
        joined_lines(ls) == ls[0] + seq!['\n'] + joined_lines(ls.drop_first()),
    decreases ls.len(),
{
    if ls.len() == 1 {
        assert(ls.drop_last() =~= Seq::<Seq<char>>::empty());
        assert(ls.drop_first() =~= Seq::<Seq<char>>::empty());
        assert(joined_lines(ls) =~= ls[0] + seq!['\n'] + joined_lines(ls.drop_first()));
    } else {
        lemma_joined_front(ls.drop_last());
        assert(ls.drop_last().drop_first() =~= ls.drop_first().drop_last());
        assert(ls.drop_first().last() == ls.last());
        assert(joined_lines(ls) =~= ls[0] + seq!['\n'] + joined_lines(ls.drop_first()));
    }
}

/// Lines without `'\n'` and not ending in `'\r'` read back from their join.
proof fn lemma_joined_lines(ls: Seq<Seq<char>>)
    requires
        forall|j: int, i: int| 0 <= j < ls.len() && 0 <= i < ls[j].len() ==> #[trigger] ls[j][i] != '\n',
        forall|j: int| 0 <= j < ls.len() ==> (#[trigger] ls[j]).len() == 0 || ls[j].last() != '\r',
    ensures
        spec_lines(joined_lines(ls)) == ls,
    decreases ls.len(),
{
    if ls.len() == 0 {
        assert(spec_lines(Seq::<char>::empty()) =~= Seq::<Seq<char>>::empty());
    } else {
        lemma_joined_front(ls);
        let l = ls[0];
        assert forall|i: int| 0 <= i < l.len() implies #[trigger] l[i] != '\n' by {
            assert(ls[0][i] != '\n');
        }
        lemma_lines_cons(l, joined_lines(ls.drop_first()));
        assert forall|j: int, i: int| 0 <= j < ls.drop_first().len() && 0 <= i < ls.drop_first()[j].len()
            implies #[trigger] ls.drop_first()[j][i] != '\n' by {
            assert(ls.drop_first()[j] == ls[j + 1]);
        }
        assert forall|j: int| 0 <= j < ls.drop_first().len() implies (#[trigger] ls.drop_first()[j]).len() == 0
            || ls.drop_first()[j].last() != '\r' by {
            assert(ls.drop_first()[j] == ls[j + 1]);
        }
        lemma_joined_lines(ls.drop_first());
        assert(seq![l] + ls.drop_first() =~= ls);
    }
}

/// The fields of lines whose keys are `ks` and values `vs`, when no line
/// has the key `key`.
proof fn lemma_fields_without(ls: Seq<Seq<char>>, ks: Seq<Seq<char>>, vs: Seq<Seq<char>>, key: Seq<char>)
    requires
        ks.len() == ls.len(),
        vs.len() == ls.len(),
        forall|i: int| 0 <= i < ls.len() ==> spec_key_value(#[trigger] ls[i]) == Some((ks[i], vs[i])),
        forall|i: int| 0 <= i < ls.len() ==> #[trigger] ks[i] != key,
    ensures
        key_values(ls, key) == Seq::<Seq<char>>::empty(),
        key == "race"@ ==> race_field(ls) == 0,
        key == "name"@ ==> name_field(ls) == "Aventurier"@,
    decreases ls.len(),
{
    if ls.len() > 0 {
        let n = ls.len() - 1;
        assert(ls.last() == ls[n]);
        assert(spec_key_value(ls[n]) == Some((ks[n], vs[n])));
        assert(ks[n] != key);
        lemma_fields_without(ls.drop_last(), ks.drop_last(), vs.drop_last(), key);
    }
}

/// The fields of lines whose keys are `ks` and values `vs`, when line `j`
/// alone has the key `key`.
proof fn lemma_fields_with(ls: Seq<Seq<char>>, ks: Seq<Seq<char>>, vs: Seq<Seq<char>>, key: Seq<char>, j: int)
    requires
        ks.len() == ls.len(),
        vs.len() == ls.len(),
        forall|i: int| 0 <= i < ls.len() ==> spec_key_value(#[trigger] ls[i]) == Some((ks[i], vs[i])),
        0 <= j < ls.len(),
        ks[j] == key,
        forall|i: int| 0 <= i < ls.len() && i != j ==> #[trigger] ks[i] != key,
    ensures
        key_values(ls, key) == seq![vs[j]],
        key == "race"@ ==> race_field(ls) == (match spec_parse_unsigned(vs[j], 255) {
            Some(n) => n as u8,
            None => 0u8,
        }),
        key == "name"@ ==> name_field(ls) == vs[j],
    decreases ls.len(),
{
    let n = ls.len() - 1;
    assert(ls.last() == ls[n]);
    assert(spec_key_value(ls[n]) == Some((ks[n], vs[n])));
    if j == n {
        lemma_fields_without(ls.drop_last(), ks.drop_last(), vs.drop_last(), key);
        assert(Seq::<Seq<char>>::empty().push(vs[j]) =~= seq![vs[j]]);
    } else {
        lemma_fields_with(ls.drop_last(), ks.drop_last(), vs.drop_last(), key, j);
    }
}

proof fn lemma_joined_take(ls: Seq<Seq<char>>, i: int)
    requires
        0 <= i < ls.len(),
    ensures
        joined_lines(ls.take(i + 1)) == joined_lines(ls.take(i)) + ls[i] + seq!['\n'],
{
    assert(ls.take(i + 1).drop_last() =~= ls.take(i));
    assert(ls.take(i + 1).last() == ls[i]);
}

/// Appends the characters of `s`.
fn push_chars(out: &mut Vec<char>, s: &Vec<char>)
    ensures
        final(out)@ == old(out)@ + s@,
{
    let ghost start = out@;
    let mut i: usize = 0;
    while i < s.len()
        invariant
            i <= s.len(),
            out@ == start + s@.take(i as int),
        decreases s.len() - i,
    {
        out.push(s[i]);
        proof {
            assert(s@.take(i + 1) =~= s@.take(i as int).push(s@[i as int]));
        }
        i = i + 1;
    }
    proof {
        assert(s@.take(s.len() as int) =~= s@);
    }
}

/// Appends the line `key=value` and its `'\n'`.
fn push_kv_line(out: &mut Vec<char>, key: &str, v: &Vec<char>)
    ensures
        final(out)@ == old(out)@ + kv_line(key@, v@) + seq!['\n'],
{
    let ghost start = out@;
    let k = chars_of(key);
    push_chars(out, &k);
    out.push('=');
    push_chars(out, v);
    out.push('\n');
    proof {
        assert(out@ =~= start + kv_line(key@, v@) + seq!['\n']);
    }
}

/// The text of a player file: a `key=value` line each for the race id,
/// the name, the position, health and mana, in that order; the numbers
/// other than the race id are given as the text to write.
pub fn player_file_text(
    race: Race,
    name: &Vec<char>,
    px: &Vec<char>,
    py: &Vec<char>,
    pz: &Vec<char>,
    hp: &Vec<char>,
    mana: &Vec<char>,
) -> (r: Vec<char>)
    ensures
        r@ == joined_lines(player_lines(race, name@, px@, py@, pz@, hp@, mana@)),
{
    let ghost ls = player_lines(race, name@, px@, py@, pz@, hp@, mana@);
    let mut digits: Vec<char> = Vec::new();
    push_nat(&mut digits, race_to_id(&race) as u32);
    let mut out: Vec<char> = Vec::new();
    proof {
        reveal_strlit("race");
        reveal_strlit("name");
        reveal_strlit("px");
        reveal_strlit("py");
        reveal_strlit("pz");
        reveal_strlit("hp");
        reveal_strlit("mana");
        assert(digits@ =~= fmt_nat(spec_race_id(race) as nat));
        assert(ls.take(0) =~= Seq::<Seq<char>>::empty());
        lemma_joined_take(ls, 0);
        lemma_joined_take(ls, 1);
        lemma_joined_take(ls, 2);
        lemma_joined_take(ls, 3);
        lemma_joined_take(ls, 4);
        lemma_joined_take(ls, 5);
        lemma_joined_take(ls, 6);
        assert(ls.take(7) =~= ls);
    }
    push_kv_line(&mut out, "race", &digits);
    push_kv_line(&mut out, "name", name);
    push_kv_line(&mut out, "px", px);
    push_kv_line(&mut out, "py", py);
    push_kv_line(&mut out, "pz", pz);
    push_kv_line(&mut out, "hp", hp);
    push_kv_line(&mut out, "mana", mana);
    out
}

/// The keys of the player file, in the order it is written.
pub open spec fn player_keys() -> Seq<Seq<char>> {
    seq!["race"@, "name"@, "px"@, "py"@, "pz"@, "hp"@, "mana"@]
}

proof fn lemma_player_keys()
    ensures
        player_keys().len() == 7,
        forall|i: int, k: int| #![trigger player_keys()[i], player_keys()[k]]
            0 <= i < 7 && 0 <= k < 7 && i != k ==> player_keys()[i] != player_keys()[k],
        forall|i: int| 0 <= i < 7 ==> {
            &&& (#[trigger] player_keys()[i]).len() > 0
            &&& !is_ws(player_keys()[i][0])
            &&& !is_ws(player_keys()[i].last())
            &&& forall|c: int| 0 <= c < player_keys()[i].len() ==> #[trigger] player_keys()[i][c] != '='
                && player_keys()[i][c] != '\n'
        },
{
    reveal_strlit("race");
    reveal_strlit("name");
    reveal_strlit("px");
    reveal_strlit("py");
    reveal_strlit("pz");
    reveal_strlit("hp");
    reveal_strlit("mana");
    let ks = player_keys();
    assert forall|i: int, k: int| #![trigger ks[i], ks[k]] 0 <= i < 7 && 0 <= k < 7 && i != k implies ks[i]
        != ks[k] by {
        assert(ks[i].len() != ks[k].len() || ks[i][0] != ks[k][0] || ks[i][1] != ks[k][1]);
    }
}

proof fn lemma_player_line(k: Seq<char>, v: Seq<char>)
    requires
        k.len() > 0,
        !is_ws(k[0]),
        !is_ws(k.last()),
        forall|c: int| 0 <= c < k.len() ==> #[trigger] k[c] != '=' && k[c] != '\n',
        plain_value(v),
    ensures
        spec_key_value(kv_line(k, v)) == Some((k, v)),
        forall|i: int| 0 <= i < kv_line(k, v).len() ==> #[trigger] kv_line(k, v)[i] != '\n',
        kv_line(k, v).len() == 0 || kv_line(k, v).last() != '\r',
{
    lemma_kv_line(k, v);
}

/// Reading back a player file as the game writes it gives the race and the
/// name written, and for each number exactly the text written, as long as
/// the name and those texts are single lines without whitespace at either
/// end.
#[verifier::rlimit(40)]
pub proof fn law_player_file_roundtrip(
    race: Race,
    name: Seq<char>,
    px: Seq<char>,
    py: Seq<char>,
    pz: Seq<char>,
    hp: Seq<char>,
    mana: Seq<char>,
)
    requires
        plain_value(name),
        plain_value(px),
        plain_value(py),
        plain_value(pz),
        plain_value(hp),
        plain_value(mana),
    ensures
        ({
            let ls = spec_lines(joined_lines(player_lines(race, name, px, py, pz, hp, mana)));
            &&& spec_id_race(race_field(ls)) == race
            &&& race_field(ls) == spec_race_id(race)
            &&& name_field(ls) == name
            &&& key_values(ls, "px"@) == seq![px]
            &&& key_values(ls, "py"@) == seq![py]
            &&& key_values(ls, "pz"@) == seq![pz]
            &&& key_values(ls, "hp"@) == seq![hp]
            &&& key_values(ls, "mana"@) == seq![mana]
        }),
{
    let id = spec_race_id(race) as nat;
    let digits = fmt_nat(id);
    lemma_digits_solid(id);
    assert(plain_value(digits));
    let ks = player_keys();
    let vs = seq![digits, name, px, py, pz, hp, mana];
    let ls = player_lines(race, name, px, py, pz, hp, mana);
    lemma_player_keys();
    assert(ks.len() == 7 && vs.len() == 7 && ls.len() == 7);
    assert forall|j: int| 0 <= j < 7 implies ls[j] == kv_line(ks[j], vs[j]) && plain_value(vs[j]) by {
        if j == 0 {
        } else if j == 1 {
        } else if j == 2 {
        } else if j == 3 {
        } else if j == 4 {
        } else if j == 5 {
        } else {
        }
    }
    assert forall|j: int| 0 <= j < 7 implies {
        &&& spec_key_value(#[trigger] ls[j]) == Some((ks[j], vs[j]))
        &&& forall|i: int| 0 <= i < ls[j].len() ==> #[trigger] ls[j][i] != '\n'
        &&& ls[j].len() == 0 || ls[j].last() != '\r'
    } by {
        assert(ks[j].len() > 0);
        lemma_player_line(ks[j], vs[j]);
    }
    assert forall|j: int, i: int| 0 <= j < ls.len() && 0 <= i < ls[j].len() implies #[trigger] ls[j][i] != '\n' by {
        assert(spec_key_value(ls[j]) == Some((ks[j], vs[j])));
    }
    assert forall|j: int| 0 <= j < ls.len() implies (#[trigger] ls[j]).len() == 0 || ls[j].last() != '\r' by {
        assert(spec_key_value(ls[j]) == Some((ks[j], vs[j])));
    }
    lemma_joined_lines(ls);
    law_parse_fmt_nat(id, 255);
    law_race_id_roundtrip(race, 0);
    assert(forall|i: int| 0 <= i < ls.len() ==> spec_key_value(#[trigger] ls[i]) == Some((ks[i], vs[i])));
    lemma_fields_with(ls, ks, vs, ks[0], 0);
    lemma_fields_with(ls, ks, vs, ks[1], 1);
    lemma_fields_with(ls, ks, vs, ks[2], 2);
    lemma_fields_with(ls, ks, vs, ks[3], 3);
    lemma_fields_with(ls, ks, vs, ks[4], 4);
    lemma_fields_with(ls, ks, vs, ks[5], 5);
    lemma_fields_with(ls, ks, vs, ks[6], 6);
}

// ---------------------------------------------------------------------------
// Slots.

/// Index of the last `'.'` in `s`, if any.
pub open spec fn last_dot(s: Seq<char>) -> Option<nat>
    decreases s.len(),
{
    if s.len() == 0 {
        None
    } else if s.last() == '.' {
        Some((s.len() - 1) as nat)
    } else {
        last_dot(s.drop_last())
    }
}

/// Slot id of a file in the save folder: a name `save_<id>.txt`, split at
/// its last `'.'` as `Path::file_stem` and `Path::extension` split it, with
/// an id that parses as a `u32`.
pub open spec fn spec_slot_id(name: Seq<char>) -> Option<u32> {
    match last_dot(name) {
        Some(d) => if d == 0 || name.skip(d + 1int) != "txt"@ {
            None
        } else {
            let stem = name.take(d as int);
            if stem.len() < 5 || stem.take(5) != "save_"@ {
                None
            } else {
                match spec_parse_unsigned(stem.skip(5), 0xffff_ffff) {
                    Some(n) => Some(n as u32),
                    None => None,
                }
            }
        },
        None => None,
    }
}

fn chars_range(s: &Vec<char>, from: usize, to: usize) -> (r: Vec<char>)
    requires
        from <= to <= s.len(),
    ensures
        r@ == s@.subrange(from as int, to as int),
{
    let mut r: Vec<char> = Vec::new();
    let mut k = from;
    while k < to
        invariant
            from <= k <= to,
            to <= s.len(),
            r@ == s@.subrange(from as int, k as int),
        decreases to - k,
    {
        r.push(s[k]);
        k = k + 1;
        assert(r@ =~= s@.subrange(from as int, k as int));
    }
    r
}

/// The slot id of a save-folder file name, if it is a player file.
pub fn slot_id_of(name: &str) -> (r: Option<u32>)
    ensures
        r == spec_slot_id(name@),
{
    let s = chars_of(name);
    let mut d = s.len();
    assert(s@.take(d as int) =~= s@);
    while d > 0 && s[d - 1] != '.'
        invariant
            d <= s.len(),
            s@ == name@,
            last_dot(s@) == last_dot(s@.take(d as int)),
        decreases d,
    {
        proof {
            assert(s@.take(d as int).drop_last() =~= s@.take(d - 1));
        }
        d = d - 1;
    }
    if d == 0 {
        assert(s@.take(0) =~= Seq::<char>::empty());
        return None;
    }
    let dot = d - 1;
    proof {
        assert(s@.take(d as int).last() == '.');
        assert(last_dot(s@) == Some(dot as nat));
    }
    if dot == 0 {
        return None;
    }
    let ext = chars_range(&s, dot + 1, s.len());
    let txt = chars_of("txt");
    assert(ext@ =~= s@.skip(dot + 1));
    if !same_chars(&ext, &txt) {
        return None;
    }
    let stem = chars_range(&s, 0, dot);
    assert(stem@ =~= s@.take(dot as int));
    if stem.len() < 5 {
        return None;
    }
    let head = chars_range(&stem, 0, 5);
    let prefix = chars_of("save_");
    assert(head@ =~= stem@.take(5));
    if !same_chars(&head, &prefix) {
        return None;
    }
    let digits = chars_range(&stem, 5, stem.len());
    assert(digits@ =~= stem@.skip(5));
    match parse_unsigned(&digits, 0xffff_ffff) {
        Some(n) => Some(n as u32),
        None => None,
    }
}

/// The smallest slot id that no listed save uses. Some id must be free.
pub fn next_free_slot(used: &HashSet<u32>) -> (r: u32)
    requires
        exists|k: u32| !used@.contains(k),
    ensures
        !used@.contains(r),
        forall|k: u32| k < r ==> used@.contains(k),
{
    broadcast use vstd::std_specs::hash::group_hash_axioms;

    let mut id: u32 = 0;
    while used.contains(&id)
        invariant
            exists|k: u32| !used@.contains(k),
            forall|k: u32| k < id ==> used@.contains(k),
        decreases u32::MAX - id,
    {
        if id == u32::MAX {
            proof {
                let k = choose|k: u32| !used@.contains(k);
                assert(k <= id);
            }
            return id;
        }
        id = id + 1;
    }
    id
}

/// `s` is in increasing order.
pub open spec fn sorted_up(s: Seq<u32>) -> bool {
    forall|i: int, j: int| 0 <= i <= j < s.len() ==> s[i] <= s[j]
}

proof fn lemma_insert_multiset(s: Seq<u32>, p: int, x: u32)
    requires
        0 <= p <= s.len(),
    ensures
        s.insert(p, x).to_multiset() == s.to_multiset().insert(x),
    decreases s.len(),
{
    broadcast use vstd::seq_lib::group_to_multiset_ensures;
    if p == s.len() {
        assert(s.insert(p, x) =~= s.push(x));
    } else {
        lemma_insert_multiset(s.drop_last(), p, x);
        assert(s.insert(p, x) =~= s.drop_last().insert(p, x).push(s.last()));
        assert(s =~= s.drop_last().push(s.last()));
    }
}

/// The slot ids in increasing order, each as often as given.
pub fn sort_slot_ids(ids: &Vec<u32>) -> (r: Vec<u32>)
    ensures
        sorted_up(r@),
        r@.to_multiset() == ids@.to_multiset(),
{
    broadcast use vstd::seq_lib::group_to_multiset_ensures;
    let mut out: Vec<u32> = Vec::new();
    let mut i: usize = 0;
    while i < ids.len()
        invariant
            i <= ids.len(),
            sorted_up(out@),
            out@.to_multiset() == ids@.take(i as int).to_multiset(),
        decreases ids.len() - i,
    {
        let x = ids[i];
        let mut p: usize = 0;
        while p < out.len() && out[p] <= x
            invariant
                p <= out.len(),
                sorted_up(out@),
                forall|k: int| 0 <= k < p ==> out@[k] <= x,
            decreases out.len() - p,
        {
            p = p + 1;
        }
        let ghost before = out@;
        out.insert(p, x);
        proof {
            lemma_insert_multiset(before, p as int, x);
            assert(ids@.take(i + 1) =~= ids@.take(i as int).push(x));
            vstd::seq_lib::to_multiset_build(ids@.take(i as int), x);
            assert(out@.to_multiset() == ids@.take(i + 1).to_multiset());
            assert forall|a: int, b: int| 0 <= a <= b < out@.len() implies out@[a] <= out@[b] by {
                if p < before.len() {
                    assert(x < before[p as int]);
                }
            }
        }
        i = i + 1;
    }
    assert(ids@.take(ids.len() as int) =~= ids@);
    out
}

} // verus!
