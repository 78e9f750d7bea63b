//! A pedal command: the MIDI message that a pedal sends, its five-byte wire
//! form, and its text form `PC<num>` or `CC<num>|<ac>,<deac>|c<channel>`.
use vstd::prelude::*;
use crate::text::{
    all_digits, chars_of, contains, contains_chars, decimal, is_ascii_digit, lemma_decimal_digits,
    lemma_parse_u8_decimal, lemma_remove_all_absent, lemma_split_concat, lemma_split_len,
    lemma_split_none, lemma_split_two, lemma_utf8_len_digits, occurs_at, parse_u8,
    parse_unsigned_chars, push_decimal, remove_all, remove_all_chars, split, split_chars,
    starts_with, string_of, utf8_len, utf8_len_chars,
};

verus! {

/// The separator between the parts of a command in its text form.
pub const COMMAND_SEP: char = '|';

/// The largest MIDI value: values and press values go from 0 to 127.
pub const MAX_VALUE: u8 = 127;

/// The press value that stands for "release value same as press value".
pub const SAME_VALUE: u8 = 0xff;

/// The length of a command's wire form.
pub const COMMAND_LEN: usize = 5;

/// One pedal's MIDI command, laid out as the five bytes the controller
/// exchanges with the device.
#[derive(Clone, Copy, Debug, PartialEq, Eq, Structural)]
pub struct Command {
    /// 0: PC, 255: CC
    pub signal_type: u8,
    /// 0-127
    pub value: u8,
    /// 0-127, if this is 0xff, then on_activate and on_deactivate will have the same value
    pub on_activate: u8,
    /// 0-127
    pub on_deactivate: u8,
    /// MIDI-channel
    pub channel: u8,
}

/// A program change on channel 1 with value 0 and no separate press values.
pub open spec fn default_command() -> Command {
    Command { signal_type: 0x00, value: 0x00, on_activate: 0xff, on_deactivate: 0xff, channel: 0x01 }
}

/// The wire form: the fields in declaration order.
pub open spec fn command_bytes(c: Command) -> Seq<u8> {
    seq![c.signal_type, c.value, c.on_activate, c.on_deactivate, c.channel]
}

/// The command whose wire form is `b`.
pub open spec fn command_from_bytes(b: Seq<u8>) -> Command
    recommends
        b.len() == 5,
{
    Command { signal_type: b[0], value: b[1], on_activate: b[2], on_deactivate: b[3], channel: b[4] }
}

// ---------------------------------------------------------------------------
// Text form
// ---------------------------------------------------------------------------

pub open spec fn cc_text() -> Seq<char> {
    seq!['C', 'C']
}

pub open spec fn pc_text() -> Seq<char> {
    seq!['P', 'C']
}

/// `PC` for a program change, `CC` for a control change.
pub open spec fn signal_text(signal_type: u8) -> Seq<char> {
    if signal_type == 0 {
        pc_text()
    } else {
        cc_text()
    }
}

/// `|<ac>,<deac>` when the press values are set, nothing otherwise.
pub open spec fn press_text(c: Command) -> Seq<char> {
    if c.on_activate == 0xff {
        Seq::<char>::empty()
    } else {
        seq![COMMAND_SEP] + decimal(c.on_activate as nat) + seq![','] + decimal(
            c.on_deactivate as nat,
        )
    }
}

/// `|c<channel>` unless the channel is 1.
pub open spec fn channel_text(c: Command) -> Seq<char> {
    if c.channel == 1 {
        Seq::<char>::empty()
    } else {
        seq![COMMAND_SEP, 'c'] + decimal(c.channel as nat)
    }
}

/// The text form of `c`; there is none for a signal type other than PC
/// and CC, or for a channel of 15 or more.
pub open spec fn command_text(c: Command) -> Option<Seq<char>> {
    if (c.signal_type == 0 || c.signal_type == 255) && c.channel < 15 {
        Some(signal_text(c.signal_type) + decimal(c.value as nat) + press_text(c) + channel_text(c))
    } else {
        None
    }
}

/// The view of an optional string.
pub open spec fn opt_text(o: Option<String>) -> Option<Seq<char>> {
    match o {
        Some(s) => Some(s@),
        None => None,
    }
}

/// What `char::is_numeric` answers for a character outside ASCII (whether
/// its Unicode general category is Nd, Nl or No).
pub uninterp spec fn unicode_numeric(c: char) -> bool;

/// `char::is_numeric`: within ASCII exactly the digits.
pub open spec fn is_numeric(c: char) -> bool {
    if (c as u32) < 0x80 {
        is_ascii_digit(c)
    } else {
        unicode_numeric(c)
    }
}

/// `char::is_numeric`. Its documentation names the Unicode number
/// categories; within ASCII these hold exactly the digits `0`-`9`, which
/// the contract states; outside ASCII it is named by `unicode_numeric`.
#[verifier::external_body]
fn char_is_numeric(c: char) -> (r: bool)
    ensures
        (c as u32) < 0x80 ==> r == is_ascii_digit(c),
        (c as u32) >= 0x80 ==> r == unicode_numeric(c),
{
    c.is_numeric()
}

/// The signal type a text names and the text left once that name is
/// removed: `CC` wins over `PC`.
pub open spec fn signal_of(s: Seq<char>) -> Option<(u8, Seq<char>)> {
    if contains(s, cc_text()) {
        Some((255u8, remove_all(s, cc_text())))
    } else if contains(s, pc_text()) {
        Some((0u8, remove_all(s, pc_text())))
    } else {
        None
    }
}

/// The value part passes the check before it is parsed: only numeric
/// characters, at most three bytes, not empty.
pub open spec fn value_field_ok(f: Seq<char>) -> bool {
    &&& forall|i: int| 0 <= i < f.len() ==> #[trigger] is_numeric(f[i])
    &&& utf8_len(f) <= 3
    &&& f.len() > 0
}

/// Press values in range: the press value is 0xff (the release value is
/// the same), or both are MIDI values from 0 to 127.
pub open spec fn press_values_ok(a: u8, d: u8) -> bool {
    a == SAME_VALUE || (a <= MAX_VALUE && d <= MAX_VALUE)
}

/// One option after the value: `c<channel>`, or `<ac>,<deac>`.
pub open spec fn apply_option(cmd: Command, v: Seq<char>) -> Option<Command> {
    if v.len() > 0 && v[0] == 'c' {
        match parse_u8(remove_all(v, seq!['c'])) {
            Some(ch) => Some(Command { channel: ch, ..cmd }),
            None => None,
        }
    } else {
        let nums = split(v, ',');
        if nums.len() == 2 {
            match (parse_u8(nums[0]), parse_u8(nums[1])) {
                (Some(a), Some(d)) => if press_values_ok(a, d) {
                    Some(Command { on_activate: a, on_deactivate: d, ..cmd })
                } else {
                    None
                },
                _ => None,
            }
        } else {
            None
        }
    }
}

/// The options applied in order; any invalid option rejects the text.
pub open spec fn apply_options(cmd: Command, opts: Seq<Seq<char>>) -> Option<Command>
    decreases opts.len(),
{
    if opts.len() == 0 {
        Some(cmd)
    } else {
        match apply_option(cmd, opts[0]) {
            Some(c2) => apply_options(c2, opts.drop_first()),
            None => None,
        }
    }
}

/// The command described by the parts of a text after its signal name:
/// a value from 0 to 127, then the options.
pub open spec fn parse_parts_spec(t: u8, parts: Seq<Seq<char>>) -> Option<Command> {
    if !value_field_ok(parts[0]) {
        None
    } else {
        match parse_u8(parts[0]) {
            Some(v) => if v <= MAX_VALUE {
                apply_options(Command { signal_type: t, value: v, ..default_command() }, parts.drop_first())
            } else {
                None
            },
            None => None,
        }
    }
}

/// The command a text describes.
pub open spec fn parse_command(s: Seq<char>) -> Option<Command> {
    match signal_of(s) {
        None => None,
        Some((t, body)) => parse_parts_spec(t, split(body, COMMAND_SEP)),
    }
}

// ---------------------------------------------------------------------------
// Executable operations
// ---------------------------------------------------------------------------

impl Default for Command {
    fn default() -> (c: Self)
        ensures
            c == default_command(),
    {
        Command {
            signal_type: 0x00,
            value: 0x00,
            on_activate: 0xff,
            on_deactivate: 0xff,
            channel: 0x01,
        }
    }
}

/// The signal type and the parts of a command text.
fn split_command_text(s: &Vec<char>) -> (r: Option<(u8, Vec<Vec<char>>)>)
    ensures
        match signal_of(s@) {
            None => r is None,
            Some((t, body)) => r matches Some((t2, parts)) && t2 == t && parts@.len() == split(
                body,
                COMMAND_SEP,
            ).len() && (forall|k: int|
                0 <= k < parts@.len() ==> #[trigger] parts@[k]@ == split(body, COMMAND_SEP)[k]),
        },
{
    let cc: Vec<char> = vec!['C', 'C'];
    let pc: Vec<char> = vec!['P', 'C'];
    assert(cc@ =~= cc_text());
    assert(pc@ =~= pc_text());
    let (t, body) = if contains_chars(s, &cc) {
        (255u8, remove_all_chars(s, &cc))
    } else if contains_chars(s, &pc) {
        (0u8, remove_all_chars(s, &pc))
    } else {
        return None;
    };
    let parts = split_chars(&body, COMMAND_SEP);
    Some((t, parts))
}

/// The check on the value part.
fn value_field_ok_exec(f: &Vec<char>) -> (r: bool)
    ensures
        r == value_field_ok(f@),
{
    if f.len() == 0 {
        return false;
    }
    if f.len() > 3 {
        proof {
            lemma_utf8_len_at_least(f@);
        }
        return false;
    }
    if utf8_len_chars(f) > 3 {
        return false;
    }
    let mut i: usize = 0;
    while i < f.len()
        invariant
            i <= f.len(),
            forall|j: int| 0 <= j < i ==> #[trigger] is_numeric(f@[j]),
        decreases f.len() - i,
    {
        if !char_is_numeric(f[i]) {
            assert(!is_numeric(f@[i as int]));
            return false;
        }
        i = i + 1;
    }
    true
}

/// Each character takes at least one byte.
proof fn lemma_utf8_len_at_least(s: Seq<char>)
    ensures
        utf8_len(s) >= s.len(),
    decreases s.len(),
{
    if s.len() > 0 {
        lemma_utf8_len_at_least(s.drop_first());
    }
}

/// One option after the value.
fn apply_option_exec(cmd: Command, v: &Vec<char>) -> (r: Option<Command>)
    ensures
        r == apply_option(cmd, v@),
{
    if v.len() > 0 && v[0] == 'c' {
        let c: Vec<char> = vec!['c'];
        assert(c@ =~= seq!['c']);
        let stripped = remove_all_chars(v, &c);
        match parse_unsigned_chars(&stripped, 255) {
            Some(ch) => Some(Command { channel: ch as u8, ..cmd }),
            None => None,
        }
    } else {
        let nums = split_chars(v, ',');
        if nums.len() == 2 {
            let a = parse_unsigned_chars(&nums[0], 255);
            let d = parse_unsigned_chars(&nums[1], 255);
            match (a, d) {
                (Some(a), Some(d)) => {
                    let (a, d) = (a as u8, d as u8);
                    if a == SAME_VALUE || (a <= MAX_VALUE && d <= MAX_VALUE) {
                        Some(Command { on_activate: a, on_deactivate: d, ..cmd })
                    } else {
                        None
                    }
                },
                _ => None,
            }
        } else {
            None
        }
    }
}

/// The parse of a text that has been split into its signal type and parts.
fn parse_parts(t: u8, parts: &Vec<Vec<char>>, Ghost(body): Ghost<Seq<char>>) -> (r: Option<
    Command,
>)
    requires
        parts@.len() == split(body, COMMAND_SEP).len(),
        forall|k: int| 0 <= k < parts@.len() ==> #[trigger] parts@[k]@ == split(body, COMMAND_SEP)[k],
    ensures
        r == parse_parts_spec(t, split(body, COMMAND_SEP)),
{
    let ghost sp = split(body, COMMAND_SEP);
    proof {
        lemma_split_len(body, COMMAND_SEP);
    }
    assert(parts@[0]@ == sp[0]);
    if !value_field_ok_exec(&parts[0]) {
        return None;
    }
    let v = match parse_unsigned_chars(&parts[0], 255) {
        Some(v) => v as u8,
        None => {
            return None;
        },
    };
    if v > MAX_VALUE {
        return None;
    }
    let mut cmd = Command { signal_type: t, value: v, ..Command::default() };
    let ghost target = apply_options(cmd, sp.drop_first());
    let mut i: usize = 1;
    assert(sp.subrange(1, sp.len() as int) =~= sp.drop_first());
    while i < parts.len()
        invariant
            1 <= i <= parts@.len(),
            parts@.len() == sp.len(),
            forall|k: int| 0 <= k < parts@.len() ==> #[trigger] parts@[k]@ == sp[k],
            apply_options(cmd, sp.subrange(i as int, sp.len() as int)) == target,
            sp == split(body, COMMAND_SEP),
            value_field_ok(sp[0]),
            parse_u8(sp[0]) == Some(v),
            v <= MAX_VALUE,
            target == apply_options(
                Command { signal_type: t, value: v, ..default_command() },
                sp.drop_first(),
            ),
        decreases parts.len() - i,
    {
        let ghost rest = sp.subrange(i as int, sp.len() as int);
        assert(rest[0] == sp[i as int]);
        assert(rest.drop_first() =~= sp.subrange(i + 1, sp.len() as int));
        assert(parts@[i as int]@ == sp[i as int]);
        match apply_option_exec(cmd, &parts[i]) {
            Some(c2) => {
                cmd = c2;
            },
            None => {
                assert(apply_options(cmd, rest) is None);
                return None;
            },
        }
        i = i + 1;
    }
    assert(sp.subrange(i as int, sp.len() as int) =~= Seq::<Seq<char>>::empty());
    Some(cmd)
}

impl Command {
    /// The five bytes of the command, in field order.
    pub fn as_bytes(&self) -> (b: [u8; 5])
        ensures
            b@ == command_bytes(*self),
    {
        let b = [self.signal_type, self.value, self.on_activate, self.on_deactivate, self.channel];
        assert(b@ =~= command_bytes(*self));
        b
    }

    /// The command whose five bytes are `bytes`.
    pub fn from_byte_array(bytes: [u8; 5]) -> (c: Command)
        ensures
            c == command_from_bytes(bytes@),
    {
        Command {
            signal_type: bytes[0],
            value: bytes[1],
            on_activate: bytes[2],
            on_deactivate: bytes[3],
            channel: bytes[4],
        }
    }

    /// The text form of the command, if it has one.
    pub fn as_str(&self) -> (res: Option<String>)
        ensures
            opt_text(res) == command_text(*self),
    {
        let mut out: Vec<char> = Vec::new();
        if self.signal_type == 0 {
            out.push('P');
            out.push('C');
        } else if self.signal_type == 255 {
            out.push('C');
            out.push('C');
        } else {
            return None;
        }
        assert(out@ =~= signal_text(self.signal_type));
        push_decimal(&mut out, self.value as u64);
        if self.on_activate != 0xff {
            out.push(COMMAND_SEP);
            push_decimal(&mut out, self.on_activate as u64);
            out.push(',');
            push_decimal(&mut out, self.on_deactivate as u64);
        }
        assert(out@ =~= signal_text(self.signal_type) + decimal(self.value as nat) + press_text(
            *self,
        ));
        if self.channel == 1 {
        } else if self.channel < 15 {
            out.push(COMMAND_SEP);
            out.push('c');
            push_decimal(&mut out, self.channel as u64);
        } else {
            return None;
        }
        assert(out@ =~= command_text(*self).unwrap());
        Some(string_of(&out))
    }

    /// Parses `PC<num>` or `CC<num>|<ac>,<deac>|c<channel>` (channel and
    /// ac,dc are optional).
    pub fn from_string(input: String) -> (res: Option<Self>)
        ensures
            res == parse_command(input@),
    {
        let s = chars_of(input.as_str());
        match split_command_text(&s) {
            None => None,
            Some((t, parts)) => {
                let ghost body = signal_of(s@).unwrap().1;
                parse_parts(t, &parts, Ghost(body))
            },
        }
    }
}

// ---------------------------------------------------------------------------
// The text form read back
// ---------------------------------------------------------------------------

/// A character that may follow the signal name in a command text.
spec fn plain_char(x: char) -> bool {
    is_ascii_digit(x) || x == ',' || x == 'c' || x == COMMAND_SEP
}

spec fn all_plain(s: Seq<char>) -> bool {
    forall|i: int| 0 <= i < s.len() ==> #[trigger] plain_char(s[i])
}

proof fn lemma_plain_concat(a: Seq<char>, b: Seq<char>)
    requires
        all_plain(a),
        all_plain(b),
    ensures
        all_plain(a + b),
{
    assert forall|i: int| 0 <= i < (a + b).len() implies #[trigger] plain_char((a + b)[i]) by {
        if i < a.len() {
            assert((a + b)[i] == a[i]);
        } else {
            assert((a + b)[i] == b[i - a.len()]);
        }
    }
}

proof fn lemma_plain_digits(s: Seq<char>)
    requires
        all_digits(s),
    ensures
        all_plain(s),
{
    assert forall|i: int| 0 <= i < s.len() implies #[trigger] plain_char(s[i]) by {
        assert(is_ascii_digit(s[i]));
    }
}

/// A text of plain characters has no `C` and no `P`.
proof fn lemma_plain_free(s: Seq<char>)
    requires
        all_plain(s),
    ensures
        !s.contains('C'),
        !s.contains('P'),
{
    if s.contains('C') {
        let i = choose|i: int| 0 <= i < s.len() && s[i] == 'C';
        assert(plain_char(s[i]));
    }
    if s.contains('P') {
        let i = choose|i: int| 0 <= i < s.len() && s[i] == 'P';
        assert(plain_char(s[i]));
    }
}

/// A text of ASCII digits holds no separator, no comma and no `c`.
proof fn lemma_digits_free(s: Seq<char>)
    requires
        all_digits(s),
    ensures
        !s.contains(COMMAND_SEP),
        !s.contains(','),
        !s.contains('c'),
{
    if s.contains(COMMAND_SEP) {
        let i = choose|i: int| 0 <= i < s.len() && s[i] == COMMAND_SEP;
        assert(is_ascii_digit(s[i]));
    }
    if s.contains(',') {
        let i = choose|i: int| 0 <= i < s.len() && s[i] == ',';
        assert(is_ascii_digit(s[i]));
    }
    if s.contains('c') {
        let i = choose|i: int| 0 <= i < s.len() && s[i] == 'c';
        assert(is_ascii_digit(s[i]));
    }
}

/// A character missing from both halves is missing from the whole.
proof fn lemma_concat_free(a: Seq<char>, b: Seq<char>, x: char)
    requires
        !a.contains(x),
        !b.contains(x),
    ensures
        !(a + b).contains(x),
{
    if (a + b).contains(x) {
        let i = choose|i: int| 0 <= i < (a + b).len() && (a + b)[i] == x;
        if i < a.len() {
            assert(a[i] == x);
        } else {
            assert(b[i - a.len()] == x);
        }
    }
}

/// The signal name in front of a text free of `C` and `P` is found and
/// removed.
proof fn lemma_signal_of(t: u8, rest: Seq<char>)
    requires
        t == 0 || t == 255,
        !rest.contains('C'),
        !rest.contains('P'),
    ensures
        signal_of(signal_text(t) + rest) == Some((t, rest)),
{
    let sig = signal_text(t);
    let text = sig + rest;
    assert(text.subrange(2, text.len() as int) =~= rest);
    assert(text.subrange(0, 2) =~= sig);
    if t == 255 {
        assert(occurs_at(text, cc_text(), 0));
        assert(starts_with(text, cc_text()));
        lemma_remove_all_absent(rest, cc_text());
    } else {
        assert(!contains(text, cc_text())) by {
            if contains(text, cc_text()) {
                let i = choose|i: int| occurs_at(text, cc_text(), i);
                assert(text.subrange(i, i + 2)[0] == text[i]);
                assert(text.subrange(i, i + 2)[1] == text[i + 1]);
                if i >= 1 {
                    assert(rest[i - 1] == text[i + 1]);
                } else {
                    assert(text[0] == 'P');
                }
            }
        }
        assert(occurs_at(text, pc_text(), 0));
        assert(starts_with(text, pc_text()));
        lemma_remove_all_absent(rest, pc_text());
    }
}

/// `<ac>,<deac>` sets the two press values.
proof fn lemma_press_option(x: Command, on: u8, off: u8)
    requires
        press_values_ok(on, off),
    ensures
        apply_option(x, decimal(on as nat) + seq![','] + decimal(off as nat)) == Some(
            Command { on_activate: on, on_deactivate: off, ..x },
        ),
{
    let a = decimal(on as nat);
    let b = decimal(off as nat);
    lemma_decimal_digits(on as nat);
    lemma_decimal_digits(off as nat);
    lemma_digits_free(a);
    lemma_digits_free(b);
    lemma_split_two(a, b, ',');
    lemma_parse_u8_decimal(on);
    lemma_parse_u8_decimal(off);
    let v = a + seq![','] + b;
    assert(v[0] == a[0]);
    assert(is_ascii_digit(a[0]));
}

/// `c<channel>` sets the channel.
proof fn lemma_channel_option(x: Command, ch: u8)
    ensures
        apply_option(x, seq!['c'] + decimal(ch as nat)) == Some(Command { channel: ch, ..x }),
{
    let d = decimal(ch as nat);
    let v = seq!['c'] + d;
    lemma_decimal_digits(ch as nat);
    lemma_digits_free(d);
    assert(v.subrange(0, 1) =~= seq!['c']);
    assert(v.subrange(1, v.len() as int) =~= d);
    lemma_remove_all_absent(d, seq!['c']);
    assert(remove_all(v, seq!['c']) == d);
    lemma_parse_u8_decimal(ch);
}

/// A command whose text form reads back as it: its value and press values
/// are MIDI values from 0 to 127, or the press value is 0xff and so is the
/// release value (a command whose press value is 0xff is written without
/// press values, and reads back with both 0xff).
pub open spec fn readable(c: Command) -> bool {
    &&& c.value <= MAX_VALUE
    &&& if c.on_activate == SAME_VALUE {
        c.on_deactivate == SAME_VALUE
    } else {
        c.on_activate <= MAX_VALUE && c.on_deactivate <= MAX_VALUE
    }
}

/// The press option in text: `<ac>,<deac>`.
spec fn press_part(c: Command) -> Seq<char> {
    decimal(c.on_activate as nat) + seq![','] + decimal(c.on_deactivate as nat)
}

/// The channel option in text: `c<channel>`.
spec fn channel_part(c: Command) -> Seq<char> {
    seq!['c'] + decimal(c.channel as nat)
}

/// The options that the text form of `c` writes after the value.
spec fn option_parts(c: Command) -> Seq<Seq<char>> {
    (if c.on_activate == 0xff {
        Seq::<Seq<char>>::empty()
    } else {
        seq![press_part(c)]
    }) + (if c.channel == 1 {
        Seq::<Seq<char>>::empty()
    } else {
        seq![channel_part(c)]
    })
}

/// The text after the signal name holds only plain characters.
proof fn lemma_rest_plain(c: Command)
    ensures
        all_plain(decimal(c.value as nat) + press_text(c) + channel_text(c)),
{
    lemma_decimal_digits(c.value as nat);
    lemma_decimal_digits(c.on_activate as nat);
    lemma_decimal_digits(c.on_deactivate as nat);
    lemma_decimal_digits(c.channel as nat);
    lemma_plain_digits(decimal(c.value as nat));
    lemma_plain_digits(decimal(c.on_activate as nat));
    lemma_plain_digits(decimal(c.on_deactivate as nat));
    lemma_plain_digits(decimal(c.channel as nat));
    let sep = seq![COMMAND_SEP];
    assert(all_plain(sep));
    assert(all_plain(seq![',']));
    assert(all_plain(seq!['c']));
    assert(all_plain(Seq::<char>::empty()));
    let p = press_text(c);
    let chn = channel_text(c);
    if c.on_activate != 0xff {
        lemma_plain_concat(sep, decimal(c.on_activate as nat));
        lemma_plain_concat(sep + decimal(c.on_activate as nat), seq![',']);
        lemma_plain_concat(
            sep + decimal(c.on_activate as nat) + seq![','],
            decimal(c.on_deactivate as nat),
        );
    }
    if c.channel != 1 {
        lemma_plain_concat(sep, seq!['c']);
        lemma_plain_concat(sep + seq!['c'], decimal(c.channel as nat));
    }
    assert(all_plain(p));
    assert(all_plain(chn));
    lemma_plain_concat(decimal(c.value as nat), p);
    lemma_plain_concat(decimal(c.value as nat) + p, chn);
}

/// The parts of the text after the signal name: the value, then the
/// options.
proof fn lemma_text_parts(c: Command)
    ensures
        split(decimal(c.value as nat) + press_text(c) + channel_text(c), COMMAND_SEP) == seq![
            decimal(c.value as nat),
        ] + option_parts(c),
{
    let d = decimal(c.value as nat);
    let pb = press_part(c);
    let cb = channel_part(c);
    let sep = seq![COMMAND_SEP];
    let rest = d + press_text(c) + channel_text(c);
    lemma_decimal_digits(c.value as nat);
    lemma_decimal_digits(c.on_activate as nat);
    lemma_decimal_digits(c.on_deactivate as nat);
    lemma_decimal_digits(c.channel as nat);
    lemma_digits_free(d);
    lemma_digits_free(decimal(c.on_activate as nat));
    lemma_digits_free(decimal(c.on_deactivate as nat));
    lemma_digits_free(decimal(c.channel as nat));
    assert(!seq![','].contains(COMMAND_SEP)) by {
        if seq![','].contains(COMMAND_SEP) {
            let i = choose|i: int| 0 <= i < 1 && seq![','][i] == COMMAND_SEP;
        }
    }
    assert(!seq!['c'].contains(COMMAND_SEP)) by {
        if seq!['c'].contains(COMMAND_SEP) {
            let i = choose|i: int| 0 <= i < 1 && seq!['c'][i] == COMMAND_SEP;
        }
    }
    lemma_concat_free(decimal(c.on_activate as nat), seq![','], COMMAND_SEP);
    lemma_concat_free(
        decimal(c.on_activate as nat) + seq![','],
        decimal(c.on_deactivate as nat),
        COMMAND_SEP,
    );
    lemma_concat_free(seq!['c'], decimal(c.channel as nat), COMMAND_SEP);
    if c.on_activate == 0xff && c.channel == 1 {
        assert(rest =~= d);
        lemma_split_none(d, COMMAND_SEP);
        assert(seq![d] + option_parts(c) =~= seq![d]);
    } else if c.on_activate != 0xff && c.channel == 1 {
        assert(rest =~= d + sep + pb);
        lemma_split_two(d, pb, COMMAND_SEP);
        assert(seq![d] + option_parts(c) =~= seq![d, pb]);
    } else if c.on_activate == 0xff && c.channel != 1 {
        assert(rest =~= d + sep + cb);
        lemma_split_two(d, cb, COMMAND_SEP);
        assert(seq![d] + option_parts(c) =~= seq![d, cb]);
    } else {
        let a = d + sep + pb;
        assert(rest =~= a + sep + cb);
        lemma_split_two(d, pb, COMMAND_SEP);
        lemma_split_none(cb, COMMAND_SEP);
        lemma_split_concat(a, cb, COMMAND_SEP);
        assert(seq![cb].drop_first().insert(0, cb) =~= seq![cb]);
        assert(seq![d] + option_parts(c) =~= seq![d, pb] + seq![cb]);
    }
}

/// The options written for `c` turn the bare command back into `c`.
proof fn lemma_apply_option_parts(c: Command)
    requires
        readable(c),
    ensures
        apply_options(
            Command { signal_type: c.signal_type, value: c.value, ..default_command() },
            option_parts(c),
        ) == Some(c),
{
    let base = Command { signal_type: c.signal_type, value: c.value, ..default_command() };
    let pb = press_part(c);
    let cb = channel_part(c);
    let none = Seq::<Seq<char>>::empty();
    let c2 = Command { on_activate: c.on_activate, on_deactivate: c.on_deactivate, ..base };
    if c.on_activate != 0xff {
        lemma_press_option(base, c.on_activate, c.on_deactivate);
    }
    assert(seq![pb].drop_first() =~= none);
    assert(seq![cb].drop_first() =~= none);
    if c.on_activate == 0xff && c.channel == 1 {
        assert(option_parts(c) =~= none);
        assert(base == c);
    } else if c.on_activate != 0xff && c.channel == 1 {
        assert(option_parts(c) =~= seq![pb]);
        assert(apply_options(base, seq![pb]) == apply_options(c2, none));
        assert(c2 == c);
    } else if c.on_activate == 0xff && c.channel != 1 {
        assert(option_parts(c) =~= seq![cb]);
        lemma_channel_option(base, c.channel);
        let c3 = Command { channel: c.channel, ..base };
        assert(apply_options(base, seq![cb]) == apply_options(c3, none));
        assert(c3 == c);
    } else {
        assert(option_parts(c) =~= seq![pb, cb]);
        lemma_channel_option(c2, c.channel);
        let c3 = Command { channel: c.channel, ..c2 };
        assert(seq![pb, cb].drop_first() =~= seq![cb]);
        assert(apply_options(base, seq![pb, cb]) == apply_options(c2, seq![cb]));
        assert(apply_options(c2, seq![cb]) == apply_options(c3, none));
        assert(c3 == c);
    }
}

/// The text form of a command whose values are in range reads back as the
/// command (see `readable`).
#[verifier::rlimit(40)]
pub proof fn lemma_text_round_trip(c: Command)
    requires
        command_text(c) is Some,
        readable(c),
    ensures
        parse_command(command_text(c).unwrap()) == Some(c),
{
    let d = decimal(c.value as nat);
    let rest = d + press_text(c) + channel_text(c);
    let text = signal_text(c.signal_type) + rest;
    assert(command_text(c).unwrap() =~= text);
    lemma_rest_plain(c);
    lemma_plain_free(rest);
    lemma_signal_of(c.signal_type, rest);
    lemma_text_parts(c);
    let parts = split(rest, COMMAND_SEP);
    assert(parts[0] == d);
    assert(parts.drop_first() =~= option_parts(c));
    lemma_apply_option_parts(c);
    lemma_decimal_digits(c.value as nat);
    assert forall|i: int| 0 <= i < d.len() implies #[trigger] is_numeric(d[i]) by {
        assert(is_ascii_digit(d[i]));
    }
    lemma_utf8_len_digits(d);
    lemma_parse_u8_decimal(c.value);
}


/// The wire form read back gives the command.
pub proof fn lemma_bytes_round_trip(c: Command)
    ensures
        command_from_bytes(command_bytes(c)) == c,
        command_bytes(command_from_bytes(command_bytes(c))) == command_bytes(c),
{
}

/// The value part of a command text: the decimal notation of a value up to
/// 127 passes the check and parses to the value.
proof fn lemma_value_part(v: u8)
    ensures
        value_field_ok(decimal(v as nat)),
        parse_u8(decimal(v as nat)) == Some(v),
{
    let d = decimal(v as nat);
    lemma_decimal_digits(v as nat);
    assert forall|i: int| 0 <= i < d.len() implies #[trigger] is_numeric(d[i]) by {
        assert(is_ascii_digit(d[i]));
    }
    lemma_utf8_len_digits(d);
    lemma_parse_u8_decimal(v);
}

/// `a + sep + b + sep + c` splits into its three pieces when none of them
/// holds the separator.
proof fn lemma_split_three(a: Seq<char>, b: Seq<char>, c: Seq<char>, sep: char)
    requires
        !a.contains(sep),
        !b.contains(sep),
        !c.contains(sep),
    ensures
        split(a + seq![sep] + b + seq![sep] + c, sep) == seq![a, b, c],
{
    lemma_split_two(a, b, sep);
    lemma_split_none(c, sep);
    lemma_split_concat(a + seq![sep] + b, c, sep);
    assert(seq![c].drop_first().insert(0, c) =~= seq![c]);
    assert(seq![a, b] + seq![c] =~= seq![a, b, c]);
}

/// The press option `<ac>,<deac>` and the channel option `c<channel>` hold
/// only plain characters, and no separator.
proof fn lemma_option_texts(a: u8, d: u8, ch: u8)
    ensures
        all_plain(decimal(a as nat) + seq![','] + decimal(d as nat)),
        all_plain(seq!['c'] + decimal(ch as nat)),
        !(decimal(a as nat) + seq![','] + decimal(d as nat)).contains(COMMAND_SEP),
        !(seq!['c'] + decimal(ch as nat)).contains(COMMAND_SEP),
{
    lemma_decimal_digits(a as nat);
    lemma_decimal_digits(d as nat);
    lemma_decimal_digits(ch as nat);
    lemma_plain_digits(decimal(a as nat));
    lemma_plain_digits(decimal(d as nat));
    lemma_plain_digits(decimal(ch as nat));
    assert(all_plain(seq![',']));
    assert(all_plain(seq!['c']));
    lemma_plain_concat(decimal(a as nat), seq![',']);
    lemma_plain_concat(decimal(a as nat) + seq![','], decimal(d as nat));
    lemma_plain_concat(seq!['c'], decimal(ch as nat));
    lemma_digits_free(decimal(a as nat));
    lemma_digits_free(decimal(d as nat));
    lemma_digits_free(decimal(ch as nat));
    assert(!seq![','].contains(COMMAND_SEP)) by {
        if seq![','].contains(COMMAND_SEP) {
            let i = choose|i: int| 0 <= i < 1 && seq![','][i] == COMMAND_SEP;
        }
    }
    assert(!seq!['c'].contains(COMMAND_SEP)) by {
        if seq!['c'].contains(COMMAND_SEP) {
            let i = choose|i: int| 0 <= i < 1 && seq!['c'][i] == COMMAND_SEP;
        }
    }
    lemma_concat_free(decimal(a as nat), seq![','], COMMAND_SEP);
    lemma_concat_free(decimal(a as nat) + seq![','], decimal(d as nat), COMMAND_SEP);
    lemma_concat_free(seq!['c'], decimal(ch as nat), COMMAND_SEP);
}

/// The command written with its value, then both options in the order
/// given.
pub open spec fn text_with_options(c: Command, channel_first: bool) -> Seq<char> {
    let pb = decimal(c.on_activate as nat) + seq![','] + decimal(c.on_deactivate as nat);
    let cb = seq!['c'] + decimal(c.channel as nat);
    let sep = seq![COMMAND_SEP];
    if channel_first {
        signal_text(c.signal_type) + decimal(c.value as nat) + sep + cb + sep + pb
    } else {
        signal_text(c.signal_type) + decimal(c.value as nat) + sep + pb + sep + cb
    }
}

/// The two option texts of `c`, in the order given.
spec fn option_pair(c: Command, channel_first: bool) -> (Seq<char>, Seq<char>) {
    let pb = decimal(c.on_activate as nat) + seq![','] + decimal(c.on_deactivate as nat);
    let cb = seq!['c'] + decimal(c.channel as nat);
    if channel_first {
        (cb, pb)
    } else {
        (pb, cb)
    }
}

/// The text after the signal name of a command holding both options has
/// no signal letter, and none of its three pieces holds the separator.
proof fn lemma_option_rest_plain(c: Command, channel_first: bool)
    ensures
        !(decimal(c.value as nat) + seq![COMMAND_SEP] + option_pair(c, channel_first).0 + seq![
            COMMAND_SEP,
        ] + option_pair(c, channel_first).1).contains('C'),
        !(decimal(c.value as nat) + seq![COMMAND_SEP] + option_pair(c, channel_first).0 + seq![
            COMMAND_SEP,
        ] + option_pair(c, channel_first).1).contains('P'),
        !decimal(c.value as nat).contains(COMMAND_SEP),
        !option_pair(c, channel_first).0.contains(COMMAND_SEP),
        !option_pair(c, channel_first).1.contains(COMMAND_SEP),
{
    let d = decimal(c.value as nat);
    let (x, y) = option_pair(c, channel_first);
    let sep = seq![COMMAND_SEP];
    lemma_option_texts(c.on_activate, c.on_deactivate, c.channel);
    lemma_decimal_digits(c.value as nat);
    lemma_plain_digits(d);
    lemma_digits_free(d);
    assert(all_plain(sep));
    lemma_plain_concat(d, sep);
    lemma_plain_concat(d + sep, x);
    lemma_plain_concat(d + sep + x, sep);
    lemma_plain_concat(d + sep + x + sep, y);
    lemma_plain_free(d + sep + x + sep + y);
}

/// The signal name and the three parts of a text holding both options.
proof fn lemma_option_order_parts(t: u8, d: Seq<char>, x: Seq<char>, y: Seq<char>)
    requires
        t == 0 || t == 255,
        !(d + seq![COMMAND_SEP] + x + seq![COMMAND_SEP] + y).contains('C'),
        !(d + seq![COMMAND_SEP] + x + seq![COMMAND_SEP] + y).contains('P'),
        !d.contains(COMMAND_SEP),
        !x.contains(COMMAND_SEP),
        !y.contains(COMMAND_SEP),
    ensures
        signal_of(signal_text(t) + (d + seq![COMMAND_SEP] + x + seq![COMMAND_SEP] + y)) == Some(
            (t, d + seq![COMMAND_SEP] + x + seq![COMMAND_SEP] + y),
        ),
        split(d + seq![COMMAND_SEP] + x + seq![COMMAND_SEP] + y, COMMAND_SEP) == seq![d, x, y],
{
    lemma_signal_of(t, d + seq![COMMAND_SEP] + x + seq![COMMAND_SEP] + y);
    lemma_split_three(d, x, y, COMMAND_SEP);
}

/// Both options applied, in either order, give the command.
proof fn lemma_option_order_apply(c: Command, channel_first: bool)
    requires
        press_values_ok(c.on_activate, c.on_deactivate),
    ensures
        apply_options(
            Command { signal_type: c.signal_type, value: c.value, ..default_command() },
            seq![option_pair(c, channel_first).0, option_pair(c, channel_first).1],
        ) == Some(c),
{
    let (x, y) = option_pair(c, channel_first);
    let base = Command { signal_type: c.signal_type, value: c.value, ..default_command() };
    let with_press = Command { on_activate: c.on_activate, on_deactivate: c.on_deactivate, ..base };
    let with_channel = Command { channel: c.channel, ..base };
    let none = Seq::<Seq<char>>::empty();
    assert(seq![x, y].drop_first() =~= seq![y]);
    assert(seq![y].drop_first() =~= none);
    if channel_first {
        lemma_channel_option(base, c.channel);
        lemma_press_option(with_channel, c.on_activate, c.on_deactivate);
        assert(apply_options(base, seq![x, y]) == apply_options(with_channel, seq![y]));
        let last = Command { on_activate: c.on_activate, on_deactivate: c.on_deactivate, ..with_channel };
        assert(apply_options(with_channel, seq![y]) == apply_options(last, none));
        assert(last == c);
    } else {
        lemma_press_option(base, c.on_activate, c.on_deactivate);
        lemma_channel_option(with_press, c.channel);
        assert(apply_options(base, seq![x, y]) == apply_options(with_press, seq![y]));
        let last = Command { channel: c.channel, ..with_press };
        assert(apply_options(with_press, seq![y]) == apply_options(last, none));
        assert(last == c);
    }
}

/// The press option and the channel option may come in either order: a
/// text holding both reads as the same command.
pub proof fn lemma_option_order(c: Command, channel_first: bool)
    requires
        c.signal_type == 0 || c.signal_type == 255,
        c.value <= MAX_VALUE,
        press_values_ok(c.on_activate, c.on_deactivate),
    ensures
        parse_command(text_with_options(c, channel_first)) == Some(c),
{
    let d = decimal(c.value as nat);
    let x = option_pair(c, channel_first).0;
    let y = option_pair(c, channel_first).1;
    let t = c.signal_type;
    let rest = d + seq![COMMAND_SEP] + x + seq![COMMAND_SEP] + y;
    let text = text_with_options(c, channel_first);
    let parts = seq![d, x, y];
    let base = Command { signal_type: t, value: c.value, ..default_command() };
    assert(signal_of(text) == Some((t, rest)) && split(rest, COMMAND_SEP) == parts) by {
        assert(text =~= signal_text(t) + rest);
        lemma_option_rest_plain(c, channel_first);
        lemma_option_order_parts(t, d, x, y);
    }
    assert(value_field_ok(d) && parse_u8(d) == Some(c.value)) by {
        lemma_value_part(c.value);
    }
    assert(apply_options(base, seq![x, y]) == Some(c)) by {
        lemma_option_order_apply(c, channel_first);
    }
    assert(parts.drop_first() =~= seq![x, y]);
    assert(parts[0] == d);
    assert(parse_parts_spec(t, parts) == Some(c));
}

} // verus!
