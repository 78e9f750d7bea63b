//! The controller's state: the pedal configuration shown for editing and
//! the named aliases of a few commands, with the conversions between the
//! configuration and the messages exchanged with the device.
use vstd::prelude::*;
use indexmap::IndexMap;
use crate::command::{
    command_bytes, command_from_bytes, command_text, lemma_bytes_round_trip, COMMAND_LEN, lemma_text_round_trip, opt_text, parse_command,
    readable, Command,
};
use crate::config::{
    column_entries, columns_entries, columns_from, columns_insert, columns_new, entries_insert,
    entries_view, has_key, insert_all, key_position, keys_sorted, keys_unique, sort_entries, sorted_version,
};

verus! {

/// The state of the controller front end.
pub struct ControllerApp {
    /// Pedal number to the text of its command, in display order.
    pub columns: IndexMap<u8, String>,
    /// Alias name to command text.
    pub aliases: Vec<(String, String)>,
    /// Command text to alias name.
    pub aliases_rev: Vec<(String, String)>,
}

// ---------------------------------------------------------------------------
// Aliases
// ---------------------------------------------------------------------------

/// The pairs of a vector of string pairs, by view.
pub open spec fn pairs_view(v: Seq<(String, String)>) -> Seq<(Seq<char>, Seq<char>)> {
    v.map_values(|p: (String, String)| (p.0@, p.1@))
}

/// The second text of the first pair whose first text is `key`.
pub open spec fn lookup(pairs: Seq<(Seq<char>, Seq<char>)>, key: Seq<char>) -> Option<Seq<char>>
    decreases pairs.len(),
{
    if pairs.len() == 0 {
        None
    } else if pairs[0].0 == key {
        Some(pairs[0].1)
    } else {
        lookup(pairs.drop_first(), key)
    }
}

/// The aliases: name and command text.
pub open spec fn alias_table() -> Seq<(Seq<char>, Seq<char>)> {
    seq![("Down"@, "CC52"@), ("Up"@, "CC53"@), ("Tune"@, "CC68"@), ("Tap"@, "CC64"@)]
}

/// The aliases the other way round: command text and name.
pub open spec fn alias_table_rev() -> Seq<(Seq<char>, Seq<char>)> {
    seq![("CC52"@, "Down"@), ("CC53"@, "Up"@), ("CC68"@, "Tune"@), ("CC64"@, "Tap"@)]
}

/// The view of an optional string reference.
pub open spec fn opt_ref_text(o: Option<&String>) -> Option<Seq<char>> {
    match o {
        Some(s) => Some(s@),
        None => None,
    }
}

/// The command text that an entered text stands for: the alias's command,
/// or the text itself.
pub open spec fn resolved_text(app: ControllerApp, t: Seq<char>) -> Seq<char> {
    match lookup(pairs_view(app.aliases@), t) {
        Some(c) => c,
        None => t,
    }
}

/// The text shown for a command: its alias name where it has one,
/// otherwise its text form.
pub open spec fn shown_text(app: ControllerApp, c: Command) -> Seq<char> {
    let t = command_text(c).unwrap();
    match lookup(pairs_view(app.aliases_rev@), t) {
        Some(a) => a,
        None => t,
    }
}

/// The text of an entry can be turned into a command when it is sent.
pub open spec fn send_ready(app: ControllerApp, t: Seq<char>) -> bool {
    parse_command(resolved_text(app, t)) is Some
}

/// The configuration message body: each pedal number followed by the five
/// bytes of its command.
pub open spec fn cfg_body(app: ControllerApp, es: Seq<(u8, Seq<char>)>) -> Seq<u8>
    decreases es.len(),
{
    if es.len() == 0 {
        Seq::empty()
    } else {
        cfg_body(app, es.drop_last()) + seq![es.last().0] + command_bytes(
            parse_command(resolved_text(app, es.last().1)).unwrap(),
        )
    }
}

/// The entries that received commands become: each pedal with the text
/// shown for its command.
pub open spec fn shown_entries(app: ControllerApp, received: Seq<(u8, Command)>) -> Seq<
    (u8, Seq<char>),
> {
    received.map_values(|e: (u8, Command)| (e.0, shown_text(app, e.1)))
}

/// An owned copy of a string slice.
fn owned(s: &str) -> (r: String)
    ensures
        r@ == s@,
{
    s.to_owned()
}

/// The first text of the first pair whose first text equals `key`.
fn find_pair<'a>(pairs: &'a Vec<(String, String)>, key: &String) -> (r: Option<&'a String>)
    ensures
        opt_ref_text(r) == lookup(pairs_view(pairs@), key@),
{
    let ghost pv = pairs_view(pairs@);
    let mut i: usize = 0;
    assert(pv.subrange(0, pv.len() as int) =~= pv);
    while i < pairs.len()
        invariant
            i <= pairs@.len(),
            pv == pairs_view(pairs@),
            lookup(pv.subrange(i as int, pv.len() as int), key@) == lookup(pv, key@),
        decreases pairs.len() - i,
    {
        let ghost rest = pv.subrange(i as int, pv.len() as int);
        assert(rest[0] == (pairs@[i as int].0@, pairs@[i as int].1@));
        assert(rest.drop_first() =~= pv.subrange(i + 1, pv.len() as int));
        if pairs[i].0 == *key {
            return Some(&pairs[i].1);
        }
        i = i + 1;
    }
    assert(pv.subrange(i as int, pv.len() as int) =~= Seq::<(Seq<char>, Seq<char>)>::empty());
    None
}

impl Default for ControllerApp {
    fn default() -> (app: Self)
        ensures
            column_entries(app.columns) == Seq::<(u8, Seq<char>)>::empty(),
            pairs_view(app.aliases@) == alias_table(),
            pairs_view(app.aliases_rev@) == alias_table_rev(),
    {
        let aliases = ControllerApp::get_aliases();
        ControllerApp { columns: columns_new(), aliases: aliases.0, aliases_rev: aliases.1 }
    }
}

/// The entries of a configuration reply: each entry is a pedal number
/// followed by the wire form of its command.
pub open spec fn reply_entries(reply: Seq<u8>) -> Seq<(u8, Command)> {
    Seq::new(
        reply.len() / (COMMAND_LEN as nat + 1),
        |i: int|
            (
                reply[(COMMAND_LEN + 1) * i],
                command_from_bytes(
                    reply.subrange((COMMAND_LEN + 1) * i + 1, (COMMAND_LEN + 1) * i + COMMAND_LEN + 1),
                ),
            ),
    )
}

/// The pedals and commands of a configuration reply, which holds whole
/// entries and at least one.
pub fn reply_commands(reply: &Vec<u8>) -> (r: Vec<(u8, Command)>)
    requires
        reply@.len() > 0,
        reply@.len() % (COMMAND_LEN as nat + 1) == 0,
    ensures
        r@ == reply_entries(reply@),
{
    let mut r: Vec<(u8, Command)> = Vec::new();
    let mut index: usize = 0;
    loop
        invariant_except_break
            index < reply@.len(),
        invariant
            reply@.len() > 0,
            reply@.len() % 6 == 0,
            index % 6 == 0,
            index <= reply@.len(),
            r@ == reply_entries(reply@).subrange(0, (index / 6) as int),
        ensures
            index == reply@.len(),
        decreases reply@.len() - index,
    {
        assert(index + 6 <= reply.len());
        let ped = reply[index];
        let bytes: [u8; 5] = [
            reply[index + 1],
            reply[index + 2],
            reply[index + 3],
            reply[index + 4],
            reply[index + 5],
        ];
        let cmd = Command::from_byte_array(bytes);
        proof {
            let k = index / 6;
            assert(reply@.subrange(index + 1, index + 6) =~= bytes@);
            assert(reply_entries(reply@)[k as int] == (ped, cmd));
        }
        r.push((ped, cmd));
        assert(r@ =~= reply_entries(reply@).subrange(0, (index / 6 + 1) as int));
        index = index + COMMAND_LEN + 1;
        if index >= reply.len() {
            break;
        }
    }
    assert(r@ =~= reply_entries(reply@));
    r
}

impl ControllerApp {
    /// The alias table, name to command text and command text to name.
    pub fn get_aliases() -> (res: (Vec<(String, String)>, Vec<(String, String)>))
        ensures
            pairs_view(res.0@) == alias_table(),
            pairs_view(res.1@) == alias_table_rev(),
    {
        let mut res: Vec<(String, String)> = Vec::new();
        let mut res2: Vec<(String, String)> = Vec::new();
        res.push((owned("Down"), owned("CC52")));
        res2.push((owned("CC52"), owned("Down")));
        res.push((owned("Up"), owned("CC53")));
        res2.push((owned("CC53"), owned("Up")));
        res.push((owned("Tune"), owned("CC68")));
        res2.push((owned("CC68"), owned("Tune")));
        res.push((owned("Tap"), owned("CC64")));
        res2.push((owned("CC64"), owned("Tap")));
        assert(pairs_view(res@) =~= alias_table());
        assert(pairs_view(res2@) =~= alias_table_rev());
        (res, res2)
    }

    /// The command text that the alias `input` names.
    pub fn match_alias(&self, input: &String) -> (r: Option<&String>)
        ensures
            opt_ref_text(r) == lookup(pairs_view(self.aliases@), input@),
    {
        find_pair(&self.aliases, input)
    }

    /// The alias name of the command text `input`.
    pub fn match_alias_rev(&self, input: &String) -> (r: Option<&String>)
        ensures
            opt_ref_text(r) == lookup(pairs_view(self.aliases_rev@), input@),
    {
        find_pair(&self.aliases_rev, input)
    }

    /// The text shown for a command received from the device.
    pub fn cfg_str_from_value(&self, value: Command) -> (r: String)
        requires
            command_text(value) is Some,
        ensures
            r@ == shown_text(*self, value),
    {
        let type_st = match value.as_str() {
            Some(s) => s,
            None => {
                return String::new();
            },
        };
        match self.match_alias_rev(&type_st) {
            Some(s) => s.clone(),
            None => type_st,
        }
    }

    /// The command that an entered text stands for, aliases resolved.
    pub fn command_from_str(&self, cmd: &String) -> (r: Option<Command>)
        ensures
            r == parse_command(resolved_text(*self, cmd@)),
    {
        let input: String = match self.match_alias(cmd) {
            Some(n) => n.clone(),
            None => cmd.clone(),
        };
        Command::from_string(input)
    }

    /// Orders the configuration by pedal number.
    pub fn sort_cfg(&mut self)
        ensures
            sorted_version(column_entries(final(self).columns), column_entries(old(self).columns)),
            final(self).aliases == old(self).aliases,
            final(self).aliases_rev == old(self).aliases_rev,
    {
        let collect = columns_entries(&self.columns);
        let sorted = sort_entries(collect);
        let new_cfg = columns_from(&sorted);
        proof {
            lemma_insert_all_sorted(entries_view(sorted@));
        }
        self.columns = new_cfg;
    }

    /// Takes the commands received from the device, pedal by pedal, into the
    /// configuration, and orders it by pedal number.
    pub fn req_cfg(&mut self, received: &Vec<(u8, Command)>)
        requires
            forall|i: int| 0 <= i < received@.len() ==> (#[trigger] command_text(received@[i].1))
                is Some,
        ensures
            sorted_version(
                column_entries(final(self).columns),
                insert_all(column_entries(old(self).columns), shown_entries(*old(self), received@)),
            ),
            final(self).aliases == old(self).aliases,
            final(self).aliases_rev == old(self).aliases_rev,
    {
        let ghost start = column_entries(self.columns);
        let ghost shown = shown_entries(*self, received@);
        let mut i: usize = 0;
        while i < received.len()
            invariant
                i <= received@.len(),
                forall|j: int| 0 <= j < received@.len() ==> (#[trigger] command_text(
                    received@[j].1,
                )) is Some,
                self.aliases == old(self).aliases,
                self.aliases_rev == old(self).aliases_rev,
                shown == shown_entries(*old(self), received@),
                column_entries(self.columns) == insert_all(start, shown.subrange(0, i as int)),
            decreases received@.len() - i,
        {
            let ped = received[i].0;
            let value = self.cfg_str_from_value(received[i].1);
            let ghost pre = shown.subrange(0, i as int);
            let ghost next = shown.subrange(0, i + 1);
            assert(next.drop_last() =~= pre);
            assert(next.last() == (ped, value@));
            columns_insert(&mut self.columns, ped, value);
            i = i + 1;
        }
        assert(shown.subrange(0, i as int) =~= shown);
        self.sort_cfg();
    }

    /// The configuration message body for the device: each pedal number
    /// followed by the five bytes of its command.
    pub fn send_cfg(&self) -> (r: Vec<u8>)
        requires
            forall|i: int|
                0 <= i < column_entries(self.columns).len() ==> #[trigger] send_ready(
                    *self,
                    column_entries(self.columns)[i].1,
                ),
        ensures
            r@ == cfg_body(*self, column_entries(self.columns)),
    {
        let cfg = columns_entries(&self.columns);
        let ghost es = column_entries(self.columns);
        let mut out: Vec<u8> = Vec::new();
        let mut i: usize = 0;
        while i < cfg.len()
            invariant
                i <= cfg@.len(),
                entries_view(cfg@) == es,
                es == column_entries(self.columns),
                forall|j: int| 0 <= j < es.len() ==> #[trigger] send_ready(*self, es[j].1),
                out@ == cfg_body(*self, es.subrange(0, i as int)),
            decreases cfg@.len() - i,
        {
            let ghost pre = es.subrange(0, i as int);
            let ghost next = es.subrange(0, i + 1);
            assert(next.drop_last() =~= pre);
            assert(next.last() == es[i as int]);
            assert(es[i as int] == (cfg@[i as int].0, cfg@[i as int].1@));
            assert(send_ready(*self, es[i as int].1));
            let cmd = match self.command_from_str(&cfg[i].1) {
                Some(c) => c,
                None => {
                    return out;
                },
            };
            out.push(cfg[i].0);
            let b = cmd.as_bytes();
            out.push(b[0]);
            out.push(b[1]);
            out.push(b[2]);
            out.push(b[3]);
            out.push(b[4]);
            i = i + 1;
            assert(out@ =~= cfg_body(*self, next));
        }
        assert(es.subrange(0, i as int) =~= es);
        out
    }

    /// Whether every entry of the configuration can be sent: the test that
    /// `send_cfg` requires.
    pub fn send_ready(&self) -> (r: bool)
        ensures
            r == forall|i: int|
                0 <= i < column_entries(self.columns).len() ==> #[trigger] send_ready(
                    *self,
                    column_entries(self.columns)[i].1,
                ),
    {
        let cfg = columns_entries(&self.columns);
        let ghost es = column_entries(self.columns);
        let mut i: usize = 0;
        while i < cfg.len()
            invariant
                i <= cfg@.len(),
                entries_view(cfg@) == es,
                es == column_entries(self.columns),
                forall|j: int| 0 <= j < i ==> #[trigger] send_ready(*self, es[j].1),
            decreases cfg@.len() - i,
        {
            assert(es[i as int] == (cfg@[i as int].0, cfg@[i as int].1@));
            let input: String = match self.match_alias(&cfg[i].1) {
                Some(n) => n.clone(),
                None => cfg[i].1.clone(),
            };
            assert(input@ == resolved_text(*self, es[i as int].1));
            if Command::from_string(input).is_none() {
                assert(!send_ready(*self, es[i as int].1));
                return false;
            }
            i = i + 1;
        }
        true
    }

    /// The configuration's entries, to be saved.
    pub fn serialize_cfg(&self) -> (r: Vec<(u8, String)>)
        ensures
            entries_view(r@) == column_entries(self.columns),
    {
        columns_entries(&self.columns)
    }

    /// Replaces the configuration with the loaded entries, ordered by pedal
    /// number.
    pub fn load_cfg(&mut self, cfg: Vec<(u8, String)>)
        ensures
            sorted_version(
                column_entries(final(self).columns),
                insert_all(Seq::empty(), entries_view(cfg@)),
            ),
            final(self).aliases == old(self).aliases,
            final(self).aliases_rev == old(self).aliases_rev,
    {
        self.columns = columns_from(&cfg);
        self.sort_cfg();
    }
}

/// Inserting entries with distinct, increasing pedal numbers into an empty
/// map keeps them as they are.
proof fn lemma_insert_all_sorted(es: Seq<(u8, Seq<char>)>)
    requires
        keys_sorted(es),
    ensures
        insert_all(Seq::empty(), es) == es,
    decreases es.len(),
{
    if es.len() > 0 {
        let pre = es.drop_last();
        assert(keys_sorted(pre));
        lemma_insert_all_sorted(pre);
        let k = es.last().0;
        assert(!has_key(pre, k)) by {
            if has_key(pre, k) {
                let i = choose|i: int| 0 <= i < pre.len() && pre[i].0 == k;
                assert(es[i].0 < es[es.len() - 1].0);
            }
        }
        assert(pre.push(es.last()) =~= es);
    }
}


/// The controller holds the built-in aliases.
pub open spec fn standard_aliases(app: ControllerApp) -> bool {
    pairs_view(app.aliases@) == alias_table() && pairs_view(app.aliases_rev@) == alias_table_rev()
}

/// What the built-in alias names and texts hold.
proof fn lemma_alias_literals()
    ensures
        "Down"@ == seq!['D', 'o', 'w', 'n'],
        "Up"@ == seq!['U', 'p'],
        "Tune"@ == seq!['T', 'u', 'n', 'e'],
        "Tap"@ == seq!['T', 'a', 'p'],
        "CC52"@ == seq!['C', 'C', '5', '2'],
        "CC53"@ == seq!['C', 'C', '5', '3'],
        "CC68"@ == seq!['C', 'C', '6', '8'],
        "CC64"@ == seq!['C', 'C', '6', '4'],
{
    reveal_strlit("Down");
    reveal_strlit("Up");
    reveal_strlit("Tune");
    reveal_strlit("Tap");
    reveal_strlit("CC52");
    reveal_strlit("CC53");
    reveal_strlit("CC68");
    reveal_strlit("CC64");
    assert("Down"@ =~= seq!['D', 'o', 'w', 'n']);
    assert("Up"@ =~= seq!['U', 'p']);
    assert("Tune"@ =~= seq!['T', 'u', 'n', 'e']);
    assert("Tap"@ =~= seq!['T', 'a', 'p']);
    assert("CC52"@ =~= seq!['C', 'C', '5', '2']);
    assert("CC53"@ =~= seq!['C', 'C', '5', '3']);
    assert("CC68"@ =~= seq!['C', 'C', '6', '8']);
    assert("CC64"@ =~= seq!['C', 'C', '6', '4']);
}

/// Looking up a text in the alias name table: a command text (starting
/// with `P` or `C`) names no alias.
proof fn lemma_lookup_names(t: Seq<char>)
    requires
        t.len() > 0,
        t[0] == 'P' || t[0] == 'C',
    ensures
        lookup(alias_table(), t) is None,
{
    lemma_alias_literals();
    let tb = alias_table();
    assert(tb[0].0 != t && tb[1].0 != t && tb[2].0 != t && tb[3].0 != t) by {
        assert(tb[0].0[0] == 'D' && tb[1].0[0] == 'U' && tb[2].0[0] == 'T' && tb[3].0[0] == 'T');
    }
    let t1 = tb.drop_first();
    let t2 = t1.drop_first();
    let t3 = t2.drop_first();
    assert(t1[0] == tb[1] && t2[0] == tb[2] && t3[0] == tb[3]);
    assert(tb.len() == 4 && t1.len() == 3 && t2.len() == 2 && t3.len() == 1);
    assert(t3.drop_first().len() == 0);
    assert(lookup(t3.drop_first(), t) is None);
    assert(lookup(t3, t) is None);
    assert(lookup(t2, t) is None);
    assert(lookup(t1, t) is None);
}

/// Each alias leads back to its command text.
proof fn lemma_lookup_round_trip(t: Seq<char>)
    ensures
        lookup(alias_table_rev(), t) matches Some(a) ==> lookup(alias_table(), a) == Some(t),
{
    lemma_alias_literals();
    let tb = alias_table();
    let rv = alias_table_rev();
    let t1 = tb.drop_first();
    let t2 = t1.drop_first();
    let t3 = t2.drop_first();
    let r1 = rv.drop_first();
    let r2 = r1.drop_first();
    let r3 = r2.drop_first();
    assert(tb.len() == 4 && t1.len() == 3 && t2.len() == 2 && t3.len() == 1);
    assert(rv.len() == 4 && r1.len() == 3 && r2.len() == 2 && r3.len() == 1);
    assert(r3.drop_first().len() == 0);
    assert(lookup(r3.drop_first(), t) is None);
    assert(t1[0] == tb[1] && t2[0] == tb[2] && t3[0] == tb[3]);
    assert(r1[0] == rv[1] && r2[0] == rv[2] && r3[0] == rv[3]);
    assert(t1[1] == tb[2] && t1[2] == tb[3] && t2[1] == tb[3]);
    assert(tb[0].0 != tb[1].0 && tb[0].0 != tb[2].0 && tb[0].0 != tb[3].0) by {
        assert(tb[0].0[0] != tb[1].0[0] && tb[0].0[0] != tb[2].0[0] && tb[0].0[0] != tb[3].0[0]);
    }
    assert(tb[1].0 != tb[2].0 && tb[1].0 != tb[3].0) by {
        assert(tb[1].0[0] != tb[2].0[0] && tb[1].0[0] != tb[3].0[0]);
    }
    assert(tb[2].0 != tb[3].0) by {
        assert(tb[2].0.len() != tb[3].0.len());
    }
    assert(rv[0] == (tb[0].1, tb[0].0) && rv[1] == (tb[1].1, tb[1].0));
    assert(rv[2] == (tb[2].1, tb[2].0) && rv[3] == (tb[3].1, tb[3].0));
    if t == rv[0].0 {
        assert(lookup(rv, t) == Some(tb[0].0));
        assert(lookup(tb, tb[0].0) == Some(t));
    } else if t == rv[1].0 {
        assert(lookup(r1, t) == Some(tb[1].0));
        assert(lookup(t1, tb[1].0) == Some(t));
    } else if t == rv[2].0 {
        assert(lookup(r2, t) == Some(tb[2].0));
        assert(lookup(r1, t) == Some(tb[2].0));
        assert(lookup(t2, tb[2].0) == Some(t));
        assert(lookup(t1, tb[2].0) == Some(t));
    } else if t == rv[3].0 {
        assert(lookup(r3, t) == Some(tb[3].0));
        assert(lookup(r2, t) == Some(tb[3].0));
        assert(lookup(r1, t) == Some(tb[3].0));
        assert(lookup(t3, tb[3].0) == Some(t));
        assert(lookup(t2, tb[3].0) == Some(t));
        assert(lookup(t1, tb[3].0) == Some(t));
    } else {
        assert(lookup(r3, t) is None);
        assert(lookup(r2, t) is None);
        assert(lookup(r1, t) is None);
    }
}

/// The text shown for a received command reads back as that command when
/// it is sent (aliases included), for every command whose text form reads
/// back (see `lemma_text_round_trip`).
pub proof fn lemma_shown_text_round_trip(app: ControllerApp, c: Command)
    requires
        standard_aliases(app),
        command_text(c) is Some,
        readable(c),
    ensures
        resolved_text(app, shown_text(app, c)) == command_text(c).unwrap(),
        send_ready(app, shown_text(app, c)),
        parse_command(resolved_text(app, shown_text(app, c))) == Some(c),
{
    let t = command_text(c).unwrap();
    lemma_text_round_trip(c);
    assert(t[0] == 'P' || t[0] == 'C');
    lemma_lookup_round_trip(t);
    if lookup(alias_table_rev(), t) is None {
        lemma_lookup_names(t);
    }
}

/// Inserting into an empty table keeps only entries of the inserted list.
proof fn lemma_insert_all_from(list: Seq<(u8, Seq<char>)>)
    ensures
        forall|e: (u8, Seq<char>)| #[trigger] insert_all(Seq::empty(), list).contains(e) ==> list.contains(e),
    decreases list.len(),
{
    if list.len() > 0 {
        let pre = list.drop_last();
        lemma_insert_all_from(pre);
        let prev = insert_all(Seq::empty(), pre);
        let k = list.last().0;
        let r = entries_insert(prev, k, list.last().1);
        assert(r == insert_all(Seq::empty(), list));
        assert forall|e: (u8, Seq<char>)| r.contains(e) implies list.contains(e) by {
            let i = choose|i: int| 0 <= i < r.len() && r[i] == e;
            if has_key(prev, k) && i == key_position(prev, k) {
                assert(list[list.len() - 1] == e);
            } else if !has_key(prev, k) && i == prev.len() {
                assert(list[list.len() - 1] == e);
            } else {
                assert(prev[i] == e);
                assert(prev.contains(e));
                let j = choose|j: int| 0 <= j < pre.len() && pre[j] == e;
                assert(list[j] == e);
            }
        }
    }
}

/// An entry is sent as a command the board reported for its pedal.
pub open spec fn sent_as_received(
    app: ControllerApp,
    received: Seq<(u8, Command)>,
    e: (u8, Seq<char>),
) -> bool {
    &&& send_ready(app, e.1)
    &&& exists|j: int|
        0 <= j < received.len() && received[j].0 == e.0 && parse_command(resolved_text(app, e.1))
            == Some(received[j].1)
}

/// The configuration taken from the board, sent back, gives every pedal
/// the command the board reported for it, for commands whose text form
/// reads back (see `lemma_text_round_trip`). `es` is what `req_cfg` makes
/// of the received commands in a controller without entries.
pub proof fn lemma_received_config_sent_back(
    app: ControllerApp,
    received: Seq<(u8, Command)>,
    es: Seq<(u8, Seq<char>)>,
)
    requires
        standard_aliases(app),
        forall|j: int|
            0 <= j < received.len() ==> (#[trigger] command_text(received[j].1)) is Some
                && readable(received[j].1),
        sorted_version(es, insert_all(Seq::empty(), shown_entries(app, received))),
    ensures
        forall|i: int| 0 <= i < es.len() ==> #[trigger] sent_as_received(app, received, es[i]),
{
    let shown = shown_entries(app, received);
    lemma_insert_all_from(shown);
    assert forall|i: int| 0 <= i < es.len() implies #[trigger] sent_as_received(
        app,
        received,
        es[i],
    ) by {
        assert(es.contains(es[i]));
        assert(insert_all(Seq::empty(), shown).contains(es[i]));
        let j = choose|j: int| 0 <= j < shown.len() && shown[j] == es[i];
        assert(command_text(received[j].1) is Some);
        lemma_shown_text_round_trip(app, received[j].1);
    }
}

/// The command text an alias stands for, in closed form.
spec fn alias_of(k: Seq<char>) -> Option<Seq<char>> {
    if k == "Down"@ {
        Some("CC52"@)
    } else if k == "Up"@ {
        Some("CC53"@)
    } else if k == "Tune"@ {
        Some("CC68"@)
    } else if k == "Tap"@ {
        Some("CC64"@)
    } else {
        None
    }
}

/// The alias name of a command text, in closed form.
spec fn name_of(t: Seq<char>) -> Option<Seq<char>> {
    if t == "CC52"@ {
        Some("Down"@)
    } else if t == "CC53"@ {
        Some("Up"@)
    } else if t == "CC68"@ {
        Some("Tune"@)
    } else if t == "CC64"@ {
        Some("Tap"@)
    } else {
        None
    }
}

proof fn lemma_lookup_closed(k: Seq<char>)
    ensures
        lookup(alias_table(), k) == alias_of(k),
        lookup(alias_table_rev(), k) == name_of(k),
{
    let tb = alias_table();
    let rv = alias_table_rev();
    let t1 = tb.drop_first();
    let t2 = t1.drop_first();
    let t3 = t2.drop_first();
    let r1 = rv.drop_first();
    let r2 = r1.drop_first();
    let r3 = r2.drop_first();
    assert(tb.len() == 4 && t1.len() == 3 && t2.len() == 2 && t3.len() == 1);
    assert(rv.len() == 4 && r1.len() == 3 && r2.len() == 2 && r3.len() == 1);
    assert(t1[0] == tb[1] && t2[0] == tb[2] && t3[0] == tb[3]);
    assert(r1[0] == rv[1] && r2[0] == rv[2] && r3[0] == rv[3]);
    assert(lookup(t3.drop_first(), k) is None);
    assert(lookup(r3.drop_first(), k) is None);
    assert(lookup(t3, k) == (if k == tb[3].0 { Some(tb[3].1) } else { None }));
    assert(lookup(r3, k) == (if k == rv[3].0 { Some(rv[3].1) } else { None }));
    assert(lookup(t2, k) == (if k == tb[2].0 { Some(tb[2].1) } else { lookup(t3, k) }));
    assert(lookup(r2, k) == (if k == rv[2].0 { Some(rv[2].1) } else { lookup(r3, k) }));
    assert(lookup(t1, k) == (if k == tb[1].0 { Some(tb[1].1) } else { lookup(t2, k) }));
    assert(lookup(r1, k) == (if k == rv[1].0 { Some(rv[1].1) } else { lookup(r2, k) }));
    assert(lookup(tb, k) == (if k == tb[0].0 { Some(tb[0].1) } else { lookup(t1, k) }));
    assert(lookup(rv, k) == (if k == rv[0].0 { Some(rv[0].1) } else { lookup(r1, k) }));
    assert(tb[0] == ("Down"@, "CC52"@) && tb[1] == ("Up"@, "CC53"@));
    assert(tb[2] == ("Tune"@, "CC68"@) && tb[3] == ("Tap"@, "CC64"@));
    assert(rv[0] == ("CC52"@, "Down"@) && rv[1] == ("CC53"@, "Up"@));
    assert(rv[2] == ("CC68"@, "Tune"@) && rv[3] == ("CC64"@, "Tap"@));
}

/// A command text of the alias table.
spec fn alias_command(t: Seq<char>) -> Command {
    let v: u8 = if t == "CC52"@ {
        52
    } else if t == "CC53"@ {
        53
    } else if t == "CC68"@ {
        68
    } else {
        64
    };
    Command { signal_type: 255, value: v, on_activate: 0xff, on_deactivate: 0xff, channel: 1 }
}

/// The alias tables are inverse to each other, the alias names are
/// distinct and so are their command texts, and each alias stands for the
/// text form of a control change, which reads back as it.
pub proof fn lemma_alias_tables()
    ensures
        forall|k: Seq<char>, v: Seq<char>|
            #![trigger lookup(alias_table(), k), lookup(alias_table_rev(), v)]
            lookup(alias_table(), k) == Some(v) <==> lookup(alias_table_rev(), v) == Some(k),
        forall|i: int, j: int|
            0 <= i < j < alias_table().len() ==> alias_table()[i].0 != alias_table()[j].0
                && alias_table()[i].1 != alias_table()[j].1,
        forall|i: int|
            0 <= i < alias_table().len() ==> ({
                let t = #[trigger] alias_table()[i].1;
                &&& parse_command(t) matches Some(c)
                &&& c.signal_type == 255
                &&& command_text(c) == Some(t)
            }),
{
    lemma_alias_literals();
    assert forall|k: Seq<char>, v: Seq<char>|
        #![trigger lookup(alias_table(), k), lookup(alias_table_rev(), v)]
        lookup(alias_table(), k) == Some(v) <==> lookup(alias_table_rev(), v) == Some(k) by {
        lemma_lookup_closed(k);
        lemma_lookup_closed(v);
    }
    reveal_with_fuel(crate::text::decimal, 3);
    assert forall|i: int| 0 <= i < alias_table().len() implies ({
        let t = #[trigger] alias_table()[i].1;
        &&& parse_command(t) matches Some(c)
        &&& c.signal_type == 255
        &&& command_text(c) == Some(t)
    }) by {
        let t = alias_table()[i].1;
        let c = alias_command(t);
        assert(crate::text::decimal(c.value as nat) =~= t.subrange(2, 4));
        assert(command_text(c).unwrap() =~= t);
        lemma_text_round_trip(c);
    }
}


/// The command an entry of the configuration is sent as.
pub open spec fn entry_command(app: ControllerApp, e: (u8, Seq<char>)) -> Command {
    parse_command(resolved_text(app, e.1)).unwrap()
}

/// The text `t` is sent as a command whose text form exists and is shown
/// as `t` again.
pub open spec fn shown_as_entered(app: ControllerApp, t: Seq<char>) -> bool {
    &&& parse_command(resolved_text(app, t)) is Some
    &&& command_text(parse_command(resolved_text(app, t)).unwrap()) is Some
    &&& shown_text(app, parse_command(resolved_text(app, t)).unwrap()) == t
}

/// The configuration message body is made of whole entries: each pedal
/// number followed by the wire form of its command.
proof fn lemma_cfg_body_layout(app: ControllerApp, es: Seq<(u8, Seq<char>)>)
    requires
        forall|i: int| 0 <= i < es.len() ==> #[trigger] send_ready(app, es[i].1),
    ensures
        cfg_body(app, es).len() == (COMMAND_LEN + 1) * es.len(),
        forall|i: int|
            0 <= i < es.len() ==> cfg_body(app, es)[(COMMAND_LEN + 1) * i] == (#[trigger] es[i]).0
                && cfg_body(app, es).subrange(
                (COMMAND_LEN + 1) * i + 1,
                (COMMAND_LEN + 1) * i + COMMAND_LEN + 1,
            ) == command_bytes(entry_command(app, es[i])),
    decreases es.len(),
{
    if es.len() > 0 {
        let pre = es.drop_last();
        assert forall|i: int| 0 <= i < pre.len() implies #[trigger] send_ready(app, pre[i].1) by {
            assert(pre[i] == es[i]);
        }
        lemma_cfg_body_layout(app, pre);
        let pb = cfg_body(app, pre);
        let body = cfg_body(app, es);
        let n = pre.len();
        assert(body == pb + seq![es.last().0] + command_bytes(entry_command(app, es.last())));
        assert forall|i: int| 0 <= i < es.len() implies body[(COMMAND_LEN + 1) * i] == (
        #[trigger] es[i]).0 && body.subrange(
            (COMMAND_LEN + 1) * i + 1,
            (COMMAND_LEN + 1) * i + COMMAND_LEN + 1,
        ) == command_bytes(entry_command(app, es[i])) by {
            if i < n {
                assert(pre[i] == es[i]);
                assert(body.subrange((COMMAND_LEN + 1) * i + 1, (COMMAND_LEN + 1) * i + COMMAND_LEN + 1)
                    =~= pb.subrange((COMMAND_LEN + 1) * i + 1, (COMMAND_LEN + 1) * i + COMMAND_LEN + 1));
            } else {
                assert(i == n);
                assert(body.subrange((COMMAND_LEN + 1) * i + 1, (COMMAND_LEN + 1) * i + COMMAND_LEN + 1)
                    =~= command_bytes(entry_command(app, es.last())));
            }
        }
    }
}

/// Inserting entries that a table already holds, whose pedal numbers
/// are distinct, leaves it as it is.
proof fn lemma_insert_held(es: Seq<(u8, Seq<char>)>, list: Seq<(u8, Seq<char>)>)
    requires
        keys_unique(es),
        forall|i: int| 0 <= i < list.len() ==> es.contains(#[trigger] list[i]),
    ensures
        insert_all(es, list) == es,
    decreases list.len(),
{
    if list.len() > 0 {
        let pre = list.drop_last();
        assert forall|i: int| 0 <= i < pre.len() implies es.contains(#[trigger] pre[i]) by {
            assert(pre[i] == list[i]);
        }
        lemma_insert_held(es, pre);
        let e = list.last();
        assert(es.contains(list[list.len() - 1]));
        let j = choose|j: int| 0 <= j < es.len() && es[j] == e;
        assert(has_key(es, e.0));
        let p = key_position(es, e.0);
        assert(es[p].0 == e.0);
        assert(p == j);
        assert(es.update(p, (e.0, e.1)) =~= es);
    }
}

/// A configuration sent to the device and read back from it holds the
/// same entries, ordered by pedal number: the message body splits into
/// whole entries, each reply command has a text form, and `after`, what
/// `req_cfg` makes of the reply in a controller holding `es`, is `es`
/// sorted. The pedal numbers of `es` are distinct, as in any map, and each
/// entry's text is shown as entered when its command comes back.
pub proof fn lemma_sent_config_read_back(
    app: ControllerApp,
    es: Seq<(u8, Seq<char>)>,
    after: Seq<(u8, Seq<char>)>,
)
    requires
        keys_unique(es),
        forall|i: int| 0 <= i < es.len() ==> #[trigger] shown_as_entered(app, es[i].1),
        sorted_version(
            after,
            insert_all(es, shown_entries(app, reply_entries(cfg_body(app, es)))),
        ),
    ensures
        cfg_body(app, es).len() == (COMMAND_LEN + 1) * es.len(),
        reply_entries(cfg_body(app, es)) == es.map_values(
            |e: (u8, Seq<char>)| (e.0, entry_command(app, e)),
        ),
        forall|j: int|
            0 <= j < es.len() ==> (#[trigger] command_text(
                reply_entries(cfg_body(app, es))[j].1,
            )) is Some,
        sorted_version(after, es),
{
    assert forall|i: int| 0 <= i < es.len() implies #[trigger] send_ready(app, es[i].1) by {
        assert(shown_as_entered(app, es[i].1));
    }
    lemma_cfg_body_layout(app, es);
    let body = cfg_body(app, es);
    let reply = reply_entries(body);
    let want = es.map_values(|e: (u8, Seq<char>)| (e.0, entry_command(app, e)));
    assert(body.len() / (COMMAND_LEN as nat + 1) == es.len()) by (nonlinear_arith)
        requires
            body.len() == (COMMAND_LEN + 1) * es.len(),
    ;
    assert forall|i: int| 0 <= i < es.len() implies reply[i] == want[i] by {
        assert(es[i] == es[i]);
        lemma_bytes_round_trip(entry_command(app, es[i]));
    }
    assert(reply =~= want);
    assert forall|j: int| 0 <= j < es.len() implies (#[trigger] command_text(reply[j].1)) is Some by {
        assert(shown_as_entered(app, es[j].1));
        assert(reply[j] == want[j]);
    }
    let shown = shown_entries(app, reply);
    assert forall|i: int| 0 <= i < shown.len() implies es.contains(#[trigger] shown[i]) by {
        assert(shown_as_entered(app, es[i].1));
        assert(reply[i] == want[i]);
        assert(shown[i] == es[i]);
    }
    lemma_insert_held(es, shown);
}

} // verus!
