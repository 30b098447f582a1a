//! The command layer: decodes one request frame — an array of bulk
//! strings, one line each — dispatches it against the cache, and encodes
//! the textual reply.

use vstd::prelude::*;
use vstd::string::StringSliceAdditionalSpecFns;
use vstd::utf8::encode_utf8;
use crate::Lru;
use crate::model_get_state;
use crate::model_get_value;
use crate::model_set;
use crate::value::Value;
use crate::value::ValueV;
use crate::value::push_decimal;
use crate::value::spec_digits;

verus! {

/// The position of the first newline in `s`, or `s.len()` when there is
/// none.
pub open spec fn first_nl(s: Seq<char>) -> int
    decreases s.len(),
{
    if s.len() == 0 {
        0
    } else if s[0] == '\n' {
        0
    } else {
        1 + first_nl(s.skip(1))
    }
}

/// One trailing carriage return removed.
pub open spec fn strip_cr(l: Seq<char>) -> Seq<char> {
    if l.len() > 0 && l.last() == '\r' {
        l.drop_last()
    } else {
        l
    }
}

/// The lines of a request text: split at each newline, one carriage
/// return before the newline removed, nothing after a final newline, and
/// a last line without a newline taken as it stands.
pub open spec fn spec_lines(s: Seq<char>) -> Seq<Seq<char>>
    decreases s.len(),
{
    if s.len() == 0 {
        Seq::empty()
    } else {
        let i = first_nl(s);
        if 0 <= i < s.len() {
            seq![strip_cr(s.take(i))] + spec_lines(s.skip(i + 1))
        } else {
            seq![s]
        }
    }
}

/// The views of a vector of strings.
pub open spec fn seq_views(v: Seq<String>) -> Seq<Seq<char>> {
    Seq::new(v.len(), |i: int| v[i]@)
}

/// The line begins with character `c`.
pub open spec fn starts_ch(l: Seq<char>, c: char) -> bool {
    l.len() > 0 && l[0] == c
}

/// The bulk strings of the frame body: each line opening with a dollar
/// sign announces one, carried by the line after it; a dollar line with
/// no line after it is malformed and yields nothing.
pub open spec fn spec_parts(lines: Seq<Seq<char>>) -> Option<Seq<Seq<char>>>
    decreases lines.len(),
{
    if lines.len() == 0 {
        Option::Some(Seq::empty())
    } else if starts_ch(lines[0], '$') {
        if lines.len() < 2 {
            Option::None
        } else {
            match spec_parts(lines.skip(2)) {
                Option::None => Option::None,
                Option::Some(r) => Option::Some(seq![lines[1]] + r),
            }
        }
    } else {
        spec_parts(lines.skip(1))
    }
}

/// `p` equals a command name letter by letter, each letter in its upper
/// or its lower case.
pub open spec fn matches_ci(p: Seq<char>, up: Seq<char>, low: Seq<char>) -> bool {
    p.len() == up.len() && (forall|i: int| 0 <= i < p.len() ==> p[i] == up[i] || p[i] == low[i])
}

/// The reply to a hit: the byte length of the value's text in decimal,
/// then the text itself, each line ended by carriage return and newline.
pub open spec fn hit_reply(v: ValueV) -> Seq<char> {
    "$"@ + spec_digits((encode_utf8(v.text()).len() as usize) as nat) + "\r\n"@ + v.text()
        + "\r\n"@
}

/// The reply to one request frame, and the cache state it leaves behind,
/// for a cache of capacity `cap` holding `s`. A frame must open with an
/// array marker line; its bulk strings form the command. `SET` takes a
/// key and a value and answers `+OK`; a value holding a null character is
/// refused (a value that reads as an integer never holds one, so the
/// original acceptance test — integer, or free of nulls — comes to this).
/// `GET` takes a key and answers the value's text, or `$-1` on a miss.
/// `PING` answers `+PONG`. Command names match case-insensitively.
pub open spec fn spec_reply(s: Seq<(Seq<char>, ValueV)>, cap: nat, input: Seq<char>) -> (Seq<
    char,
>, Seq<(Seq<char>, ValueV)>) {
    let lines = spec_lines(input);
    if lines.len() == 0 || !starts_ch(lines[0], '*') {
        ("-ERR invalid command\r\n"@, s)
    } else {
        match spec_parts(lines.skip(1)) {
            Option::None => ("-ERR malformed bulk string\r\n"@, s),
            Option::Some(parts) => {
                if parts.len() == 0 {
                    ("-ERR empty command\r\n"@, s)
                } else if matches_ci(parts[0], "SET"@, "set"@) {
                    if parts.len() != 3 {
                        ("-ERR wrong number of arguments for 'SET'\r\n"@, s)
                    } else if parts[2].contains('\0') {
                        ("-ERR value must be string or int\r\n"@, s)
                    } else {
                        ("+OK\r\n"@, model_set(s, cap, parts[1], ValueV::Str(parts[2])))
                    }
                } else if matches_ci(parts[0], "GET"@, "get"@) {
                    if parts.len() != 2 {
                        ("-ERR wrong number of arguments for 'GET'\r\n"@, s)
                    } else {
                        match model_get_value(s, parts[1]) {
                            Option::Some(v) => (hit_reply(v), model_get_state(s, parts[1])),
                            Option::None => ("$-1\r\n"@, s),
                        }
                    }
                } else if matches_ci(parts[0], "PING"@, "ping"@) {
                    ("+PONG\r\n"@, s)
                } else {
                    ("-ERR unknown command\r\n"@, s)
                }
            },
        }
    }
}

/// `first_nl` names the position of the first newline.
proof fn lemma_first_nl(s: Seq<char>, i: int)
    requires
        0 <= i <= s.len(),
        forall|j: int| 0 <= j < i ==> s[j] != '\n',
        i < s.len() ==> s[i] == '\n',
    ensures
        first_nl(s) == i,
    decreases s.len(),
{
    if s.len() == 0 {
    } else if s[0] == '\n' {
        assert(i == 0);
    } else {
        assert(i >= 1);
        lemma_first_nl(s.skip(1), i - 1);
    }
}

/// Splits the request text into lines, as `spec_lines` lays them out.
fn split_lines(s: &str) -> (r: Vec<String>)
    ensures
        seq_views(r@) == spec_lines(s@),
{
    let n = s.unicode_len();
    let mut lines: Vec<String> = Vec::new();
    let mut start: usize = 0;
    let mut pos: usize = 0;
    proof {
        assert(seq_views(lines@) =~= Seq::<Seq<char>>::empty());
        assert(s@.skip(0) =~= s@);
    }
    while pos < n
        invariant
            n == s@.len(),
            start <= pos <= n,
            spec_lines(s@) == seq_views(lines@) + spec_lines(s@.skip(start as int)),
            forall|j: int| start <= j < pos ==> s@[j] != '\n',
        decreases n - pos,
    {
        let c = s.get_char(pos);
        if c == '\n' {
            let mut end = pos;
            if pos > start && s.get_char(pos - 1) == '\r' {
                end = pos - 1;
            }
            let line = s.substring_char(start, end);
            let ghost lines0 = lines@;
            lines.push(String::from_str(line));
            proof {
                let rem = s@.skip(start as int);
                assert forall|j: int| 0 <= j < pos - start implies rem[j] != '\n' by {
                    assert(rem[j] == s@[start + j]);
                }
                lemma_first_nl(rem, pos - start);
                assert(strip_cr(rem.take(pos - start)) =~= line@) by {
                    assert(rem.take(pos - start) =~= s@.subrange(start as int, pos as int));
                }
                assert(rem.skip(pos - start + 1) =~= s@.skip(pos + 1));
                assert(spec_lines(rem) == seq![line@] + spec_lines(s@.skip(pos + 1)));
                assert(seq_views(lines@) =~= seq_views(lines0) + seq![line@]);
                assert(seq_views(lines@) + spec_lines(s@.skip(pos + 1)) =~= (seq_views(lines0)
                    + seq![line@]) + spec_lines(s@.skip(pos + 1)));
                assert((seq_views(lines0) + seq![line@]) + spec_lines(s@.skip(pos + 1))
                    =~= seq_views(lines0) + (seq![line@] + spec_lines(s@.skip(pos + 1))));
            }
            start = pos + 1;
        }
        pos = pos + 1;
    }
    if start < n {
        let line = s.substring_char(start, n);
        let ghost lines0 = lines@;
        lines.push(String::from_str(line));
        proof {
            let rem = s@.skip(start as int);
            assert forall|j: int| 0 <= j < rem.len() implies rem[j] != '\n' by {
                assert(rem[j] == s@[start + j]);
            }
            lemma_first_nl(rem, rem.len() as int);
            assert(rem =~= line@);
            assert(spec_lines(rem) == seq![line@]);
            assert(seq_views(lines@) =~= seq_views(lines0) + seq![line@]);
        }
    } else {
        proof {
            assert(s@.skip(start as int) =~= Seq::<char>::empty());
            assert(spec_lines(s@.skip(start as int)) =~= Seq::<Seq<char>>::empty());
            assert(seq_views(lines@) + spec_lines(s@.skip(start as int)) =~= seq_views(lines@));
        }
    }
    lines
}

/// Whether the line opens with character `c`.
fn starts_with_ch(l: &String, c: char) -> (r: bool)
    ensures
        r == starts_ch(l@, c),
{
    let s = l.as_str();
    if s.unicode_len() == 0 {
        false
    } else {
        s.get_char(0) == c
    }
}

/// Collects the bulk strings of the frame body, the lines after the
/// array marker; yields nothing on a dollar line with no line after it.
fn extract_parts(lines: &Vec<String>) -> (r: Option<Vec<String>>)
    requires
        lines@.len() >= 1,
    ensures
        match r {
            Option::Some(ps) => spec_parts(seq_views(lines@).skip(1)) == Option::Some(
                seq_views(ps@),
            ),
            Option::None => spec_parts(seq_views(lines@).skip(1)) is None,
        },
{
    let ghost lv = seq_views(lines@);
    let mut parts: Vec<String> = Vec::new();
    let mut i: usize = 1;
    let n = lines.len();
    proof {
        assert(seq_views(parts@) =~= Seq::<Seq<char>>::empty());
        assert(seq_views(parts@) + lv.skip(1) =~= lv.skip(1));
        if spec_parts(lv.skip(1)) is Some {
            let r0 = spec_parts(lv.skip(1))->0;
            assert(seq_views(parts@) + r0 =~= r0);
        }
    }
    while i < n
        invariant
            n == lines@.len(),
            lv == seq_views(lines@),
            1 <= i <= n,
            match spec_parts(lv.skip(i as int)) {
                Option::Some(r) => spec_parts(lv.skip(1)) == Option::Some(seq_views(parts@) + r),
                Option::None => spec_parts(lv.skip(1)) is None,
            },
        decreases n - i,
    {
        proof {
            assert(lv.skip(i as int)[0] == lv[i as int]);
            assert(lv[i as int] == lines@[i as int]@);
        }
        if starts_with_ch(&lines[i], '$') {
            if i + 1 >= n {
                proof {
                    assert(lv.skip(i as int).len() == 1);
                    assert(spec_parts(lv.skip(i as int)) is None);
                }
                return None;
            }
            let ghost parts0 = parts@;
            parts.push(lines[i + 1].clone());
            proof {
                let tail = lv.skip(i as int);
                assert(tail.skip(2) =~= lv.skip(i + 2));
                assert(tail[1] == lv[i + 1]);
                match spec_parts(lv.skip(i + 2)) {
                    Option::Some(r) => {
                        assert(spec_parts(tail) == Option::Some(seq![lv[i + 1]] + r));
                        assert(seq_views(parts@) =~= seq_views(parts0) + seq![lv[i + 1]]);
                        assert(seq_views(parts0) + (seq![lv[i + 1]] + r) =~= seq_views(parts@)
                            + r);
                    },
                    Option::None => {},
                }
            }
            i = i + 2;
        } else {
            proof {
                let tail = lv.skip(i as int);
                assert(tail.skip(1) =~= lv.skip(i + 1));
            }
            i = i + 1;
        }
    }
    proof {
        assert(lv.skip(i as int).len() == 0);
        assert(lv.skip(i as int) =~= Seq::<Seq<char>>::empty());
        let r0 = spec_parts(lv.skip(i as int))->0;
        assert(r0 =~= Seq::<Seq<char>>::empty());
        assert(seq_views(parts@) + r0 =~= seq_views(parts@));
    }
    Some(parts)
}

/// Whether `p` equals a command name, matched letter by letter against
/// its upper-case and lower-case spellings.
fn eq_ci(p: &String, up: &str, low: &str) -> (r: bool)
    requires
        up@.len() == low@.len(),
    ensures
        r == matches_ci(p@, up@, low@),
{
    let s = p.as_str();
    let n = s.unicode_len();
    if n != up.unicode_len() {
        return false;
    }
    let mut i: usize = 0;
    while i < n
        invariant
            s@ == p@,
            n == p@.len(),
            n == up@.len(),
            n == low@.len(),
            i <= n,
            forall|j: int| 0 <= j < i ==> p@[j] == up@[j] || p@[j] == low@[j],
        decreases n - i,
    {
        let c = s.get_char(i);
        if c != up.get_char(i) && c != low.get_char(i) {
            return false;
        }
        i = i + 1;
    }
    true
}

/// Whether the value text holds a null character.
fn contains_nul(v: &String) -> (r: bool)
    ensures
        r == v@.contains('\0'),
{
    let s = v.as_str();
    let n = s.unicode_len();
    let mut i: usize = 0;
    while i < n
        invariant
            s@ == v@,
            n == v@.len(),
            i <= n,
            forall|j: int| 0 <= j < i ==> v@[j] != '\0',
        decreases n - i,
    {
        if s.get_char(i) == '\0' {
            return true;
        }
        i = i + 1;
    }
    proof {
        assert(!v@.contains('\0'));
    }
    false
}

/// The command layer around one cache.
pub struct Command {
    lru: Lru,
}

impl Command {
    /// The underlying cache is in shape.
    pub closed spec fn wf(&self) -> bool {
        self.lru.wf()
    }

    /// The cache entries, most recently used first.
    pub closed spec fn state(&self) -> Seq<(Seq<char>, ValueV)> {
        self.lru.entries()
    }

    /// The capacity bound of the cache.
    pub closed spec fn spec_capacity(&self) -> nat {
        self.lru.spec_capacity()
    }

    /// Wraps a cache.
    pub fn new(lru: Lru) -> (r: Self)
        requires
            lru.wf(),
        ensures
            r.wf(),
            r.state() == lru.entries(),
            r.spec_capacity() == lru.spec_capacity(),
    {
        Command { lru }
    }

    /// Decodes one request frame, runs it against the cache, and returns
    /// the encoded reply, exactly as `spec_reply` lays both out.
    pub fn parse(&mut self, cmd: &str) -> (r: String)
        requires
            old(self).wf(),
        ensures
            final(self).wf(),
            r@ == spec_reply(old(self).state(), old(self).spec_capacity(), cmd@).0,
            final(self).state() == spec_reply(
                old(self).state(),
                old(self).spec_capacity(),
                cmd@,
            ).1,
            final(self).spec_capacity() == old(self).spec_capacity(),
    {
        proof {
            reveal_strlit("SET");
            reveal_strlit("set");
            reveal_strlit("GET");
            reveal_strlit("get");
            reveal_strlit("PING");
            reveal_strlit("ping");
        }
        let lines = split_lines(cmd);
        if lines.len() == 0 || !starts_with_ch(&lines[0], '*') {
            proof {
                if lines@.len() > 0 {
                    assert(seq_views(lines@)[0] == lines@[0]@);
                }
            }
            return String::from_str("-ERR invalid command\r\n");
        }
        proof {
            assert(seq_views(lines@)[0] == lines@[0]@);
        }
        let parts_opt = extract_parts(&lines);
        let parts = match parts_opt {
            None => {
                return String::from_str("-ERR malformed bulk string\r\n");
            },
            Some(ps) => ps,
        };
        if parts.len() == 0 {
            proof {
                assert(seq_views(parts@).len() == 0);
            }
            return String::from_str("-ERR empty command\r\n");
        }
        let ghost pv = seq_views(parts@);
        proof {
            assert(pv[0] == parts@[0]@);
        }
        if eq_ci(&parts[0], "SET", "set") {
            if parts.len() != 3 {
                return String::from_str("-ERR wrong number of arguments for 'SET'\r\n");
            }
            proof {
                assert(pv[1] == parts@[1]@);
                assert(pv[2] == parts@[2]@);
            }
            if contains_nul(&parts[2]) {
                return String::from_str("-ERR value must be string or int\r\n");
            }
            let key = parts[1].clone();
            let val = parts[2].clone();
            self.lru.set(key, Value::Str(val));
            return String::from_str("+OK\r\n");
        }
        if eq_ci(&parts[0], "GET", "get") {
            if parts.len() != 2 {
                return String::from_str("-ERR wrong number of arguments for 'GET'\r\n");
            }
            proof {
                assert(pv[1] == parts@[1]@);
            }
            let key = parts[1].clone();
            match self.lru.get(key) {
                Some(v) => {
                    let t = v.to_text();
                    let ts = t.as_str();
                    let blen = ts.len();
                    let mut r = String::from_str("$");
                    push_decimal(&mut r, blen as u64);
                    r.append("\r\n");
                    r.append(ts);
                    r.append("\r\n");
                    proof {
                        let mv = model_get_value(old(self).state(), pv[1])->0;
                        assert(v@ == mv);
                        assert(t@ == mv.text());
                        assert(ts.spec_bytes() == encode_utf8(t@));
                        assert(blen == (encode_utf8(mv.text()).len() as usize) as nat);
                        assert(r@ =~= hit_reply(mv));
                    }
                    return r;
                },
                None => {
                    return String::from_str("$-1\r\n");
                },
            }
        }
        if eq_ci(&parts[0], "PING", "ping") {
            return String::from_str("+PONG\r\n");
        }
        String::from_str("-ERR unknown command\r\n")
    }
}

} // verus!
