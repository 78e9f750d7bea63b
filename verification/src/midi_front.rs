//! The first front end's configuration protocol: one byte per pedal, the
//! top bit telling a control change from a program change, and the text
//! the user edits for it.
use vstd::prelude::*;
use std::collections::HashMap;
use vstd::std_specs::hash::spec_hash_map_iter;
use vstd::std_specs::iter::IteratorSpec;
use crate::command::{cc_text, pc_text};
use crate::config::{entries_view, sort_entries};
use crate::text::{
    chars_of, contains, contains_chars, decimal, lemma_decimal_digits, lemma_parse_u8_decimal,
    lemma_remove_all_absent, occurs_at, parse_u8, parse_unsigned, parse_unsigned_chars,
    push_decimal, remove_all, remove_all_chars, starts_with, string_of,
};

verus! {

/// Number of pedals on the board.
pub const NUM_PEDALS: u8 = 5;

/// Size of the buffer the board's configuration is received into.
pub const CFG_BUFFER_LEN: usize = 11;

/// First byte of a configuration sent to the board.
pub const CFG_MARKER: u8 = 0xFF;

/// The text for a configuration byte: `PC` and the value for a byte whose
/// top bit is clear; for a byte whose top bit is set, the value of the low
/// seven bits alone.
pub open spec fn value_text(v: u8) -> Seq<char> {
    if v < 128 {
        pc_text() + decimal(v as nat)
    } else {
        decimal((v - 128) as nat)
    }
}

/// The text for a configuration byte.
pub fn cfg_str_from_value(value: u8) -> (r: String)
    ensures
        r@ == value_text(value),
{
    let mut type_st: Vec<char> = Vec::new();
    let mut input = value;
    let msg_type = input & 0x80;
    assert(msg_type == 0 <==> value < 128) by (bit_vector)
        requires
            msg_type == value & 0x80,
    ;
    if msg_type == 0 {
        type_st.push('P');
        type_st.push('C');
    }
    assert(input & 0x7F == (if value < 128 {
        value
    } else {
        (value - 128) as u8
    })) by (bit_vector)
        requires
            input == value,
    ;
    input = input & 0x7F;
    push_decimal(&mut type_st, input as u64);
    assert(type_st@ =~= value_text(value));
    string_of(&type_st)
}

/// The byte for an entry's text: a control change (`CC`, the number with
/// the top bit set), a program change (`PC`, the number), or 0 for
/// anything else.
#[verifier::opaque]
pub open spec fn entry_value(t: Seq<char>) -> u8 {
    if contains(t, cc_text()) {
        (parse_u8(remove_all(t, cc_text())).unwrap() + 128) as u8
    } else if contains(t, pc_text()) {
        parse_u8(remove_all(t, pc_text())).unwrap()
    } else {
        0
    }
}

/// An entry's text has a byte: a control change or program change must
/// carry a number, below 128 for a control change.
#[verifier::opaque]
pub open spec fn entry_sendable(t: Seq<char>) -> bool {
    if contains(t, cc_text()) {
        parse_u8(remove_all(t, cc_text())) matches Some(v) && v < 128
    } else if contains(t, pc_text()) {
        parse_u8(remove_all(t, pc_text())) is Some
    } else {
        true
    }
}

/// The configuration body: pedal number and byte for each entry in turn.
pub open spec fn entries_body(es: Seq<(u8, Seq<char>)>) -> Seq<u8>
    decreases es.len(),
{
    if es.len() == 0 {
        Seq::empty()
    } else {
        entries_body(es.drop_last()) + seq![es.last().0, entry_value(es.last().1)]
    }
}

/// The byte for an entry's text.
fn entry_value_exec(t: &String) -> (r: u8)
    requires
        entry_sendable(t@),
    ensures
        r == entry_value(t@),
{
    reveal(entry_value);
    reveal(entry_sendable);
    let s = chars_of(t.as_str());
    let cc: Vec<char> = vec!['C', 'C'];
    let pc: Vec<char> = vec!['P', 'C'];
    assert(cc@ =~= cc_text());
    assert(pc@ =~= pc_text());
    if contains_chars(&s, &cc) {
        let value = remove_all_chars(&s, &cc);
        match parse_unsigned_chars(&value, 255) {
            Some(v) => v as u8 + 128,
            None => 0,
        }
    } else if contains_chars(&s, &pc) {
        let value = remove_all_chars(&s, &pc);
        match parse_unsigned_chars(&value, 255) {
            Some(v) => v as u8,
            None => 0,
        }
    } else {
        0
    }
}

/// The configuration sent to the board: the marker byte, then for each
/// entry in the order given its pedal number and byte.
pub fn send_cfg_buffer(cfg: &Vec<(u8, String)>) -> (r: Vec<u8>)
    requires
        forall|i: int| 0 <= i < cfg@.len() ==> #[trigger] entry_sendable(cfg@[i].1@),
    ensures
        r@ == seq![CFG_MARKER] + entries_body(entries_view(cfg@)),
{
    let ghost es = entries_view(cfg@);
    let mut out: Vec<u8> = Vec::new();
    out.push(CFG_MARKER);
    let mut i: usize = 0;
    while i < cfg.len()
        invariant
            i <= cfg@.len(),
            es == entries_view(cfg@),
            forall|j: int| 0 <= j < cfg@.len() ==> #[trigger] entry_sendable(cfg@[j].1@),
            out@ == seq![CFG_MARKER] + entries_body(es.subrange(0, i as int)),
        decreases cfg@.len() - i,
    {
        let ghost next = es.subrange(0, i + 1);
        assert(next.drop_last() =~= es.subrange(0, i as int));
        assert(next.last() == (cfg@[i as int].0, cfg@[i as int].1@));
        assert(entry_sendable(cfg@[i as int].1@));
        let v = entry_value_exec(&cfg[i].1);
        out.push(cfg[i].0);
        out.push(v);
        i = i + 1;
        assert(out@ =~= seq![CFG_MARKER] + entries_body(next));
    }
    assert(es.subrange(0, i as int) =~= es);
    out
}

/// Whether every entry's text has a byte: the test that `send_cfg_buffer`
/// requires.
pub fn cfg_sendable(cfg: &Vec<(u8, String)>) -> (r: bool)
    ensures
        r == forall|i: int| 0 <= i < cfg@.len() ==> #[trigger] entry_sendable(cfg@[i].1@),
{
    reveal(entry_sendable);
    let mut i: usize = 0;
    while i < cfg.len()
        invariant
            i <= cfg@.len(),
            forall|j: int| 0 <= j < i ==> #[trigger] entry_sendable(cfg@[j].1@),
        decreases cfg@.len() - i,
    {
        proof {
            reveal(entry_sendable);
        }
        let s = chars_of(cfg[i].1.as_str());
        let cc: Vec<char> = vec!['C', 'C'];
        let pc: Vec<char> = vec!['P', 'C'];
        assert(cc@ =~= cc_text());
        assert(pc@ =~= pc_text());
        let ok = if contains_chars(&s, &cc) {
            match parse_unsigned_chars(&remove_all_chars(&s, &cc), 255) {
                Some(v) => v < 128,
                None => false,
            }
        } else if contains_chars(&s, &pc) {
            parse_unsigned_chars(&remove_all_chars(&s, &pc), 255).is_some()
        } else {
            true
        };
        if !ok {
            assert(!entry_sendable(cfg@[i as int].1@));
            return false;
        }
        i = i + 1;
    }
    true
}

/// The entries of the configuration the board sent: pedal number and text,
/// for each of the pedals in turn.
pub open spec fn received_entries(buf: Seq<u8>) -> Seq<(u8, Seq<char>)> {
    Seq::new(NUM_PEDALS as nat, |i: int| (buf[2 * i], value_text(buf[2 * i + 1])))
}

/// The entries of the configuration received into `buf` (whose last byte
/// is not part of it).
pub fn req_cfg_entries(buf: &Vec<u8>) -> (r: Vec<(u8, String)>)
    requires
        buf@.len() >= CFG_BUFFER_LEN,
    ensures
        entries_view(r@) == received_entries(buf@),
{
    let mut r: Vec<(u8, String)> = Vec::new();
    let mut index: usize = 0;
    loop
        invariant_except_break
            index < 2 * NUM_PEDALS,
        invariant
            buf@.len() >= CFG_BUFFER_LEN,
            index % 2 == 0,
            index <= 2 * NUM_PEDALS,
            r@.len() == index / 2,
            entries_view(r@) == received_entries(buf@).subrange(0, (index / 2) as int),
        ensures
            index == 2 * NUM_PEDALS,
        decreases 2 * NUM_PEDALS - index,
    {
        let ped = buf[index];
        let value = cfg_str_from_value(buf[index + 1]);
        let ghost old_r = r@;
        r.push((ped, value));
        assert(entries_view(r@) =~= received_entries(buf@).subrange(0, (index / 2 + 1) as int))
            by {
            assert(entries_view(r@) =~= entries_view(old_r).push((ped, value@)));
        }
        index = index + 2;
        if index >= 2 * NUM_PEDALS as usize {
            break;
        }
    }
    assert(received_entries(buf@).subrange(0, NUM_PEDALS as int) =~= received_entries(buf@));
    r
}

/// A pedal configuration with texts by view.
pub open spec fn text_map(m: Map<u8, String>) -> Map<u8, Seq<char>> {
    m.map_values(|s: String| s@)
}

/// The configuration after inserting each entry in turn: a later entry for
/// a pedal replaces an earlier one.
pub open spec fn with_entries(m: Map<u8, Seq<char>>, es: Seq<(u8, Seq<char>)>) -> Map<
    u8,
    Seq<char>,
>
    decreases es.len(),
{
    if es.len() == 0 {
        m
    } else {
        with_entries(m, es.drop_last()).insert(es.last().0, es.last().1)
    }
}

/// Takes the configuration received into `buf` into the pedal
/// configuration, pedal by pedal.
pub fn store_received_cfg(loaded_config: &mut HashMap<u8, String>, buf: &Vec<u8>)
    requires
        buf@.len() >= CFG_BUFFER_LEN,
    ensures
        text_map(final(loaded_config)@) == with_entries(
            text_map(old(loaded_config)@),
            received_entries(buf@),
        ),
{
    broadcast use vstd::std_specs::hash::group_hash_axioms;

    let entries = req_cfg_entries(buf);
    let ghost es = entries_view(entries@);
    let ghost start = text_map(loaded_config@);
    let mut i: usize = 0;
    while i < entries.len()
        invariant
            i <= entries@.len(),
            es == entries_view(entries@),
            text_map(loaded_config@) == with_entries(start, es.subrange(0, i as int)),
        decreases entries@.len() - i,
    {
        let ghost prev = loaded_config@;
        let ghost next = es.subrange(0, i + 1);
        assert(next.drop_last() =~= es.subrange(0, i as int));
        assert(next.last() == (entries@[i as int].0, entries@[i as int].1@));
        let k = entries[i].0;
        let v = entries[i].1.clone();
        loaded_config.insert(k, v);
        assert(text_map(loaded_config@) =~= text_map(prev).insert(k, v@));
        i = i + 1;
    }
    assert(es.subrange(0, i as int) =~= es);
}

/// The pedal configuration after an edit: the edited pedal (its number
/// cut to a byte) takes the new text.
pub open spec fn edited(cfg: Map<u8, String>, new: Option<(i32, String)>) -> Map<u8, String> {
    match new {
        Some(n) => cfg.insert(n.0 as u8, n.1),
        None => cfg,
    }
}

/// `lines` shows the configuration `cfg`: one line per pedal, ordered by
/// pedal number, with the pedal's text.
pub open spec fn shows(lines: Seq<(i32, String)>, cfg: Map<u8, String>) -> bool {
    &&& lines.len() == cfg.dom().len()
    &&& forall|i: int, j: int| 0 <= i < j < lines.len() ==> lines[i].0 < lines[j].0
    &&& forall|i: int|
        0 <= i < lines.len() ==> 0 <= lines[i].0 < 256 && cfg.contains_key(lines[i].0 as u8)
            && cfg[lines[i].0 as u8]@ == (#[trigger] lines[i]).1@
    &&& forall|k: u8| #[trigger] cfg.contains_key(k) ==> exists|i: int|
        0 <= i < lines.len() && lines[i].0 == k
}

/// Applies an edit to the pedal configuration and returns the lines that
/// show it, ordered by pedal number.
pub fn update_current_cfg(cfg: &mut HashMap<u8, String>, new: Option<(i32, String)>) -> (lines: Vec<
    (i32, String),
>)
    ensures
        final(cfg)@ == edited(old(cfg)@, new),
        new matches Some(n) ==> final(cfg)@.contains_key(n.0 as u8) && final(cfg)@[n.0 as u8]
            == n.1,
        shows(lines@, final(cfg)@),
{
    broadcast use vstd::std_specs::hash::group_hash_axioms;

    match new {
        Some(n) => {
            cfg.insert(#[verifier::truncate] (n.0 as u8), n.1);
        },
        None => {},
    }
    let mut line_vec: Vec<(u8, String)> = Vec::new();
    let cfg_ref: &HashMap<u8, String> = &*cfg;
    let ghost m = cfg_ref@;
    for e in it: cfg_ref.iter()
        invariant
            m == cfg_ref@,
            it.seq() == spec_hash_map_iter(cfg_ref).remaining(),
            it.seq().no_duplicates(),
            line_vec@.len() == it.index(),
            forall|j: int|
                0 <= j < it.index() ==> line_vec@[j].0 == *it.seq()[j].0 && line_vec@[j].1
                    == *it.seq()[j].1,
            forall|i: int, j: int|
                0 <= i < j < line_vec@.len() ==> line_vec@[i].0 != line_vec@[j].0,
        ensures
            line_vec@.len() == m.dom().len(),
            forall|j: int|
                0 <= j < line_vec@.len() ==> m.contains_key(#[trigger] line_vec@[j].0)
                    && m[line_vec@[j].0] == line_vec@[j].1,
            forall|k: u8|
                #[trigger] m.contains_key(k) ==> exists|j: int|
                    0 <= j < line_vec@.len() && line_vec@[j].0 == k,
            forall|i: int, j: int|
                0 <= i < j < line_vec@.len() ==> line_vec@[i].0 != line_vec@[j].0,
    {
        let (name, value) = e;
        let ghost before = line_vec@;
        line_vec.push((*name, value.clone()));
        proof {
            let v = it.seq();
            let n = before.len() as int;
            assert(v[n] == e);
            assert forall|i: int, j: int|
                0 <= i < j < line_vec@.len() implies line_vec@[i].0 != line_vec@[j].0 by {
                if j == n && line_vec@[i].0 == line_vec@[j].0 {
                    assert(m[*v[i].0] == *v[i].1);
                    assert(m[*v[n].0] == *v[n].1);
                    assert(v[i] == v[n]);
                } else if j < n {
                    assert(line_vec@[i] == before[i]);
                    assert(line_vec@[j] == before[j]);
                }
            }
        }
    }
    proof {
        let lv = entries_view(line_vec@);
        assert forall|i: int, j: int| 0 <= i < j < lv.len() implies lv[i].0 != lv[j].0 by {
            assert(lv[i].0 == line_vec@[i].0);
            assert(lv[j].0 == line_vec@[j].0);
        }
    }
    let ghost lv = entries_view(line_vec@);
    let ghost unsorted = line_vec@;
    let sorted = sort_entries(line_vec);
    let ghost sv = entries_view(sorted@);
    let mut lines: Vec<(i32, String)> = Vec::new();
    let mut i: usize = 0;
    while i < sorted.len()
        invariant
            i <= sorted@.len(),
            sv == entries_view(sorted@),
            lines@.len() == i,
            forall|j: int|
                0 <= j < i ==> (#[trigger] lines@[j]).0 == sorted@[j].0 as i32 && lines@[j].1
                    == sorted@[j].1,
        decreases sorted@.len() - i,
    {
        lines.push((sorted[i].0 as i32, sorted[i].1.clone()));
        i = i + 1;
    }
    proof {
        assert forall|a: int, b: int| 0 <= a < b < lines@.len() implies lines@[a].0
            < lines@[b].0 by {
            assert(sv[a].0 == sorted@[a].0);
            assert(sv[b].0 == sorted@[b].0);
        }
        assert forall|a: int|
            0 <= a < lines@.len() implies 0 <= lines@[a].0 < 256 && m.contains_key(
                lines@[a].0 as u8,
            ) && m[lines@[a].0 as u8]@ == (#[trigger] lines@[a]).1@ by {
            let k = sorted@[a].0;
            assert(sv[a] == (k, sorted@[a].1@));
            assert(sv.contains(sv[a]));
            assert(lv.contains(sv[a]));
            let j = choose|j: int| 0 <= j < lv.len() && lv[j] == sv[a];
            assert(lv[j] == (unsorted[j].0, unsorted[j].1@));
            assert(m.contains_key(unsorted[j].0));
        }
        assert forall|k: u8| #[trigger] m.contains_key(k) implies exists|a: int|
            0 <= a < lines@.len() && lines@[a].0 == k by {
            let j = choose|j: int| 0 <= j < unsorted.len() && unsorted[j].0 == k;
            assert(lv[j] == (k, unsorted[j].1@));
            assert(lv.contains(lv[j]));
            assert(sv.contains(lv[j]));
            let a = choose|a: int| 0 <= a < sv.len() && sv[a] == lv[j];
            assert(sv[a].0 == sorted@[a].0);
            assert(lines@[a].0 == k);
        }
    }
    lines
}

// ---------------------------------------------------------------------------
// Choosing a device
// ---------------------------------------------------------------------------

/// `char::is_whitespace`: the characters of Unicode's White_Space property.
pub open spec fn is_white_space(c: char) -> bool {
    let u = c as u32;
    ||| 0x09 <= u <= 0x0D
    ||| u == 0x20
    ||| u == 0x85
    ||| u == 0xA0
    ||| u == 0x1680
    ||| 0x2000 <= u <= 0x200A
    ||| u == 0x2028
    ||| u == 0x2029
    ||| u == 0x202F
    ||| u == 0x205F
    ||| u == 0x3000
}

/// `str::trim_end`: the text without its trailing white space.
pub open spec fn trim_end(s: Seq<char>) -> Seq<char>
    decreases s.len(),
{
    if s.len() > 0 && is_white_space(s.last()) {
        trim_end(s.drop_last())
    } else {
        s
    }
}

/// The device index the user typed, if it is one of the `len` offered.
pub open spec fn device_index(line: Seq<char>, len: usize) -> Option<usize> {
    match parse_unsigned(trim_end(line), usize::MAX as int) {
        Some(i) => if i < len {
            Some(i as usize)
        } else {
            None
        },
        None => None,
    }
}

fn is_white_space_exec(c: char) -> (r: bool)
    ensures
        r == is_white_space(c),
{
    let u = c as u32;
    (0x09 <= u && u <= 0x0D) || u == 0x20 || u == 0x85 || u == 0xA0 || u == 0x1680 || (0x2000 <= u
        && u <= 0x200A) || u == 0x2028 || u == 0x2029 || u == 0x202F || u == 0x205F || u == 0x3000
}

/// The device index in a line the user typed, if it is one of the `len`
/// devices offered.
pub fn parse_device_idx(line: &String, len: usize) -> (r: Option<usize>)
    ensures
        r == device_index(line@, len),
{
    let s = chars_of(line.as_str());
    let mut end: usize = s.len();
    assert(s@.subrange(0, end as int) =~= s@);
    while end > 0 && is_white_space_exec(s[end - 1])
        invariant
            end <= s@.len(),
            trim_end(s@.subrange(0, end as int)) == trim_end(line@),
        decreases end,
    {
        let ghost pre = s@.subrange(0, end as int);
        assert(pre.drop_last() =~= s@.subrange(0, end - 1));
        end = end - 1;
    }
    let mut t: Vec<char> = Vec::new();
    let mut i: usize = 0;
    while i < end
        invariant
            end <= s@.len(),
            i <= end,
            t@ == s@.subrange(0, i as int),
        decreases end - i,
    {
        t.push(s[i]);
        i = i + 1;
        assert(t@ =~= s@.subrange(0, i as int));
    }
    assert(trim_end(t@) == t@);
    match parse_unsigned_chars(&t, usize::MAX as u64) {
        Some(v) => {
            if (v as usize) < len {
                Some(v as usize)
            } else {
                None
            }
        },
        None => None,
    }
}

// ---------------------------------------------------------------------------
// Laws
// ---------------------------------------------------------------------------

/// A program change read from the board and sent back is the same byte.
/// (For a byte with the top bit set the text holds no `CC`, and it is sent
/// back as 0.)
pub proof fn lemma_program_change_round_trip(v: u8)
    requires
        v < 128,
    ensures
        entry_sendable(value_text(v)),
        entry_value(value_text(v)) == v,
{
    reveal(entry_value);
    reveal(entry_sendable);
    let d = decimal(v as nat);
    let t = value_text(v);
    lemma_decimal_digits(v as nat);
    assert(!d.contains('C') && !d.contains('P')) by {
        if d.contains('C') {
            let i = choose|i: int| 0 <= i < d.len() && d[i] == 'C';
            assert(crate::text::is_ascii_digit(d[i]));
        }
        if d.contains('P') {
            let i = choose|i: int| 0 <= i < d.len() && d[i] == 'P';
            assert(crate::text::is_ascii_digit(d[i]));
        }
    }
    assert(t.subrange(2, t.len() as int) =~= d);
    assert(t.subrange(0, 2) =~= pc_text());
    assert(!contains(t, cc_text())) by {
        if contains(t, cc_text()) {
            let i = choose|i: int| occurs_at(t, cc_text(), i);
            assert(t.subrange(i, i + 2)[0] == t[i]);
            assert(t.subrange(i, i + 2)[1] == t[i + 1]);
            if i >= 1 {
                assert(d[i - 1] == t[i + 1]);
            } else {
                assert(t[0] == 'P');
            }
        }
    }
    assert(occurs_at(t, pc_text(), 0));
    assert(starts_with(t, pc_text()));
    lemma_remove_all_absent(d, pc_text());
    lemma_parse_u8_decimal(v);
}

/// The value byte of pedal entry `i` in a received buffer.
pub open spec fn value_byte(buf: Seq<u8>, i: int) -> u8 {
    buf[2 * i + 1]
}

proof fn lemma_body_push(pre: Seq<(u8, Seq<char>)>, p: u8, v: u8)
    requires
        v < 128,
    ensures
        entries_body(pre.push((p, value_text(v)))) == entries_body(pre) + seq![p, v],
{
    let next = pre.push((p, value_text(v)));
    assert(next.drop_last() =~= pre);
    lemma_program_change_round_trip(v);
}

proof fn lemma_received_prefix(buf: Seq<u8>, k: int)
    requires
        buf.len() >= CFG_BUFFER_LEN,
        0 <= k <= NUM_PEDALS,
        forall|i: int| 0 <= i < NUM_PEDALS ==> #[trigger] value_byte(buf, i) < 128,
    ensures
        entries_body(received_entries(buf).subrange(0, k)) == buf.subrange(0, 2 * k),
    decreases k,
{
    let re = received_entries(buf);
    if k == 0 {
        assert(re.subrange(0, 0) =~= Seq::<(u8, Seq<char>)>::empty());
        assert(buf.subrange(0, 0) =~= Seq::<u8>::empty());
    } else {
        lemma_received_prefix(buf, k - 1);
        let pre = re.subrange(0, k - 1);
        let next = re.subrange(0, k);
        let p = buf[2 * k - 2];
        let v = buf[2 * k - 1];
        assert(re[k - 1] == (p, value_text(v)));
        assert(next =~= pre.push((p, value_text(v))));
        assert(value_byte(buf, k - 1) == v);
        lemma_body_push(pre, p, v);
        assert(buf.subrange(0, 2 * k - 2) + seq![p, v] =~= buf.subrange(0, 2 * k));
    }
}

/// The configuration received from the board, sent back in the order
/// received, repeats the received bytes when every value byte is a program
/// change (top bit clear). A value byte with the top bit set is sent back
/// as 0.
pub proof fn lemma_received_sent_back(buf: Seq<u8>)
    requires
        buf.len() >= CFG_BUFFER_LEN,
        forall|i: int| 0 <= i < NUM_PEDALS ==> #[trigger] value_byte(buf, i) < 128,
    ensures
        forall|i: int|
            0 <= i < NUM_PEDALS ==> #[trigger] entry_sendable(received_entries(buf)[i].1),
        entries_body(received_entries(buf)) == buf.subrange(0, 2 * NUM_PEDALS),
{
    lemma_received_prefix(buf, NUM_PEDALS as int);
    assert(received_entries(buf).subrange(0, NUM_PEDALS as int) =~= received_entries(buf));
    assert forall|i: int| 0 <= i < NUM_PEDALS implies #[trigger] entry_sendable(
        received_entries(buf)[i].1,
    ) by {
        assert(value_byte(buf, i) < 128);
        lemma_program_change_round_trip(buf[2 * i + 1]);
    }
}


/// The digits of a number hold no letter of a signal name.
proof fn lemma_decimal_no_letters(n: nat)
    ensures
        !decimal(n).contains('C'),
        !decimal(n).contains('P'),
{
    let d = decimal(n);
    lemma_decimal_digits(n);
    if d.contains('C') {
        let i = choose|i: int| 0 <= i < d.len() && d[i] == 'C';
        assert(crate::text::is_ascii_digit(d[i]));
    }
    if d.contains('P') {
        let i = choose|i: int| 0 <= i < d.len() && d[i] == 'P';
        assert(crate::text::is_ascii_digit(d[i]));
    }
}

/// A control change `CC<n>` for a number below 128 can be sent, and is
/// sent as the number with the top bit set: `n + 128`.
#[verifier::spinoff_prover]
#[verifier::rlimit(30)]
pub proof fn lemma_control_change_byte(n: u8)
    requires
        n < 128,
    ensures
        entry_sendable(cc_text() + decimal(n as nat)),
        entry_value(cc_text() + decimal(n as nat)) == n + 128,
{
    let d = decimal(n as nat);
    let t = cc_text() + d;
    assert(contains(t, cc_text())) by {
        assert(t.subrange(0, 2) =~= cc_text());
        assert(occurs_at(t, cc_text(), 0));
    }
    assert(remove_all(t, cc_text()) == d) by {
        lemma_decimal_no_letters(n as nat);
        assert(t.subrange(0, 2) =~= cc_text());
        assert(starts_with(t, cc_text()));
        assert(t.subrange(2, t.len() as int) =~= d);
        lemma_remove_all_absent(d, cc_text());
    }
    lemma_parse_u8_decimal(n);
    assert(entry_sendable(t)) by {
        reveal(entry_sendable);
    }
    assert(entry_value(t) == n + 128) by {
        reveal(entry_value);
    }
}

/// A program change `PC<n>` for any byte `n` can be sent, and is sent as
/// `n` itself.
#[verifier::spinoff_prover]
#[verifier::rlimit(30)]
pub proof fn lemma_program_change_byte(n: u8)
    ensures
        entry_sendable(pc_text() + decimal(n as nat)),
        entry_value(pc_text() + decimal(n as nat)) == n,
{
    reveal(entry_value);
    reveal(entry_sendable);
    let d = decimal(n as nat);
    let t = pc_text() + d;
    lemma_decimal_no_letters(n as nat);
    assert(t.subrange(2, t.len() as int) =~= d);
    assert(t.subrange(0, 2) =~= pc_text());
    assert(!contains(t, cc_text())) by {
        if contains(t, cc_text()) {
            let i = choose|i: int| occurs_at(t, cc_text(), i);
            assert(t.subrange(i, i + 2)[0] == t[i]);
            assert(t.subrange(i, i + 2)[1] == t[i + 1]);
            if i >= 1 {
                assert(d[i - 1] == t[i + 1]);
                assert(d.contains('C'));
            } else {
                assert(t[0] == 'P');
            }
        }
    }
    assert(occurs_at(t, pc_text(), 0));
    assert(starts_with(t, pc_text()));
    lemma_remove_all_absent(d, pc_text());
    lemma_parse_u8_decimal(n);
}

/// A device index typed as its decimal digits and ended by a newline is
/// taken, for every index among the devices offered.
pub proof fn lemma_typed_index_taken(i: usize, len: usize)
    requires
        i < len,
    ensures
        device_index(decimal(i as nat) + seq!['\n'], len) == Some(i),
{
    let d = decimal(i as nat);
    let line = d + seq!['\n'];
    lemma_decimal_digits(i as nat);
    assert(line.drop_last() =~= d);
    assert(is_white_space(line.last()));
    assert(crate::text::is_ascii_digit(d[d.len() - 1]));
    assert(!is_white_space(d.last()));
    assert(trim_end(d) == d);
    assert(trim_end(line) == d);
    crate::text::lemma_parse_decimal(i as nat, usize::MAX as int);
}

/// An index outside the devices offered, or a line that is no number, is
/// not taken.
pub proof fn lemma_index_in_range(line: Seq<char>, len: usize)
    ensures
        device_index(line, len) matches Some(i) ==> i < len,
{
    crate::text::lemma_parse_unsigned_range(trim_end(line), usize::MAX as int);
}

/// An edit sets the edited pedal (its number cut to a byte) to the new
/// text, whatever the text, the empty text included, and leaves every
/// other pedal as it was; no edit leaves the configuration as it was.
pub proof fn lemma_edit_sets_text(cfg: Map<u8, String>, p: i32, s: String)
    ensures
        edited(cfg, Some((p, s))).contains_key(p as u8),
        edited(cfg, Some((p, s)))[p as u8] == s,
        forall|k: u8|
            k != p as u8 ==> (#[trigger] edited(cfg, Some((p, s))).contains_key(k)
                == cfg.contains_key(k)) && (cfg.contains_key(k) ==> edited(cfg, Some((p, s)))[k]
                == cfg[k]),
        edited(cfg, None) == cfg,
{
}

} // verus!
