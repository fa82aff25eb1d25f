//! The snapshot wire format: the JSON object
//! `{"internal":{"<workload>":["<domain>",...],...},"external":{...}}`,
//! written and read by this module without any outside help.
//!
//! Arrays keep insertion order and duplicates. The encoder escapes quotes
//! and backslashes and nothing else; the decoder accepts exactly the
//! canonical form the encoder emits, and its contract says so in both
//! directions: whatever it accepts re-encodes, character for character, to
//! the input, and every text some well-formed snapshot encodes to is
//! accepted.

use vstd::prelude::*;
use vstd::string::StrSliceExecFns;
use vstd::string::StringExecFns;

use crate::graph::map_models;
use crate::state::AggregatedState;
use crate::state::DomainMap;
use crate::state::WorkloadEntry;
use crate::text::match_at;
use crate::text::views_of;

verus! {

/// How one character is written inside a JSON string.
pub open spec fn escape_char(c: char) -> Seq<char> {
    if c == '"' {
        seq!['\\', '"']
    } else if c == '\\' {
        seq!['\\', '\\']
    } else {
        seq![c]
    }
}

/// A string body with every quote and backslash escaped.
pub open spec fn escape_seq(s: Seq<char>) -> Seq<char>
    decreases s.len(),
{
    if s.len() == 0 {
        Seq::empty()
    } else {
        escape_seq(s.drop_last()) + escape_char(s.last())
    }
}

/// A JSON string: the escaped body in quotes.
pub open spec fn enc_string(s: Seq<char>) -> Seq<char> {
    seq!['"'] + escape_seq(s) + seq!['"']
}

/// Already-encoded items joined by commas.
pub open spec fn enc_list(items: Seq<Seq<char>>) -> Seq<char>
    decreases items.len(),
{
    if items.len() == 0 {
        Seq::empty()
    } else if items.len() == 1 {
        items[0]
    } else {
        enc_list(items.drop_last()) + seq![','] + items.last()
    }
}

/// A JSON array of strings.
pub open spec fn enc_array(ds: Seq<Seq<char>>) -> Seq<char> {
    seq!['['] + enc_list(ds.map_values(|d: Seq<char>| enc_string(d))) + seq![']']
}

/// One `"key":[...]` member.
pub open spec fn enc_entry(key: Seq<char>, ds: Seq<Seq<char>>) -> Seq<char> {
    enc_string(key) + seq![':'] + enc_array(ds)
}

/// A whole map as a JSON object.
pub open spec fn enc_entries(es: Seq<(Seq<char>, Seq<Seq<char>>)>) -> Seq<char> {
    seq!['{'] + enc_list(es.map_values(|e: (Seq<char>, Seq<Seq<char>>)| enc_entry(e.0, e.1)))
        + seq!['}']
}

/// The wire form of one snapshot.
pub open spec fn enc_state(st: AggregatedState) -> Seq<char> {
    "{\"internal\":"@ + enc_entries(map_models(st.internal)) + ",\"external\":"@ + enc_entries(
        map_models(st.external),
    ) + seq!['}']
}

fn push_escaped(out: &mut String, v: &str)
    ensures
        final(out)@ == old(out)@ + enc_string(v@),
{
    out.push('"');
    let n = v.unicode_len();
    let mut i: usize = 0;
    proof {
        assert(escape_seq(v@.subrange(0, 0)) =~= Seq::<char>::empty());
        assert(out@ =~= old(out)@ + seq!['"'] + escape_seq(v@.subrange(0, 0)));
    }
    while i < n
        invariant
            n == v@.len(),
            0 <= i <= n,
            out@ == old(out)@ + seq!['"'] + escape_seq(v@.subrange(0, i as int)),
        decreases n - i,
    {
        let c = v.get_char(i);
        if c == '"' {
            out.push('\\');
            out.push('"');
        } else if c == '\\' {
            out.push('\\');
            out.push('\\');
        } else {
            out.push(c);
        }
        proof {
            assert(v@.subrange(0, i + 1).drop_last() =~= v@.subrange(0, i as int));
            assert(v@.subrange(0, i + 1).last() == v@[i as int]);
            assert(out@ =~= old(out)@ + seq!['"'] + escape_seq(v@.subrange(0, i + 1)));
        }
        i += 1;
    }
    out.push('"');
    proof {
        assert(v@.subrange(0, n as int) =~= v@);
        assert(out@ =~= old(out)@ + enc_string(v@));
    }
}

fn push_array(out: &mut String, ds: &Vec<String>)
    ensures
        final(out)@ == old(out)@ + enc_array(views_of(ds@)),
{
    out.push('[');
    let n = ds.len();
    let ghost items = views_of(ds@).map_values(|d: Seq<char>| enc_string(d));
    let mut i: usize = 0;
    proof {
        assert(enc_list(items.take(0)) =~= Seq::<char>::empty());
        assert(out@ =~= old(out)@ + seq!['['] + enc_list(items.take(0)));
    }
    while i < n
        invariant
            n == ds@.len(),
            0 <= i <= n,
            items == views_of(ds@).map_values(|d: Seq<char>| enc_string(d)),
            out@ == old(out)@ + seq!['['] + enc_list(items.take(i as int)),
        decreases n - i,
    {
        if i > 0 {
            out.push(',');
        }
        push_escaped(out, ds[i].as_str());
        proof {
            assert(items.take(i + 1).drop_last() =~= items.take(i as int));
            assert(items.take(i + 1).last() == items[i as int]);
            assert(items[i as int] == enc_string(ds@[i as int]@));
            assert(out@ =~= old(out)@ + seq!['['] + enc_list(items.take(i + 1)));
        }
        i += 1;
    }
    out.push(']');
    proof {
        assert(items.take(n as int) =~= items);
        assert(out@ =~= old(out)@ + enc_array(views_of(ds@)));
    }
}

fn push_entries(out: &mut String, m: &DomainMap)
    ensures
        final(out)@ == old(out)@ + enc_entries(map_models(*m)),
{
    out.push('{');
    let n = m.entries.len();
    let ghost items = map_models(*m).map_values(
        |e: (Seq<char>, Seq<Seq<char>>)| enc_entry(e.0, e.1),
    );
    let mut i: usize = 0;
    proof {
        assert(enc_list(items.take(0)) =~= Seq::<char>::empty());
        assert(out@ =~= old(out)@ + seq!['{'] + enc_list(items.take(0)));
    }
    while i < n
        invariant
            n == m.entries@.len(),
            0 <= i <= n,
            items == map_models(*m).map_values(
                |e: (Seq<char>, Seq<Seq<char>>)| enc_entry(e.0, e.1),
            ),
            out@ == old(out)@ + seq!['{'] + enc_list(items.take(i as int)),
        decreases n - i,
    {
        if i > 0 {
            out.push(',');
        }
        push_escaped(out, m.entries[i].workload.as_str());
        out.push(':');
        push_array(out, &m.entries[i].domains);
        proof {
            assert(items.take(i + 1).drop_last() =~= items.take(i as int));
            assert(items.take(i + 1).last() == items[i as int]);
            assert(items[i as int] == enc_entry(m.key_at(i as int), m.domains_at(i as int)));
            assert(out@ =~= old(out)@ + seq!['{'] + enc_list(items.take(i + 1)));
        }
        i += 1;
    }
    out.push('}');
    proof {
        assert(items.take(n as int) =~= items);
        assert(out@ =~= old(out)@ + enc_entries(map_models(*m)));
    }
}

/// Encodes one snapshot into its wire form, exactly `enc_state`.
pub fn encode_state(st: &AggregatedState) -> (r: String)
    ensures
        r@ == enc_state(*st),
{
    let mut out = String::new();
    out.append("{\"internal\":");
    push_entries(&mut out, &st.internal);
    out.append(",\"external\":");
    push_entries(&mut out, &st.external);
    out.push('}');
    proof {
        assert(out@ =~= enc_state(*st));
    }
    out
}

proof fn lemma_escape_front(s: Seq<char>)
    requires
        s.len() > 0,
    ensures
        escape_seq(s) == escape_char(s[0]) + escape_seq(s.drop_first()),
    decreases s.len(),
{
    if s.len() == 1 {
        assert(s.drop_last() =~= Seq::<char>::empty());
        assert(s.drop_first() =~= Seq::<char>::empty());
        assert(escape_seq(s) =~= escape_char(s[0]) + escape_seq(s.drop_first()));
    } else {
        lemma_escape_front(s.drop_last());
        assert(s.drop_last()[0] == s[0]);
        assert(s.drop_last().drop_first() =~= s.drop_first().drop_last());
        assert(s.drop_first().last() == s.last());
        assert(escape_seq(s) =~= escape_char(s[0]) + escape_seq(s.drop_first()));
    }
}

/// No escaped body starts with a bare quote.
proof fn lemma_escape_head(s: Seq<char>)
    requires
        s.len() > 0,
    ensures
        escape_seq(s).len() > 0,
        escape_seq(s)[0] != '"',
        s[0] == '"' || s[0] == '\\' ==> escape_seq(s)[0] == '\\',
        s[0] != '"' && s[0] != '\\' ==> escape_seq(s)[0] == s[0],
{
    lemma_escape_front(s);
}

proof fn lemma_escape_prefix(x: Seq<char>, y: Seq<char>, r1: Seq<char>, r2: Seq<char>)
    requires
        escape_seq(x) + seq!['"'] + r1 == escape_seq(y) + seq!['"'] + r2,
    ensures
        x == y,
        r1 == r2,
    decreases x.len(),
{
    let lhs = escape_seq(x) + seq!['"'] + r1;
    if x.len() == 0 {
        assert(lhs[0] == '"');
        if y.len() > 0 {
            lemma_escape_head(y);
            assert(lhs[0] == escape_seq(y)[0]);
            assert(false);
        }
        assert(x =~= y);
        assert(r1 =~= r2) by {
            let rhs = escape_seq(y) + seq!['"'] + r2;
            assert(lhs.len() == rhs.len());
            assert forall|i: int| 0 <= i < r1.len() implies r1[i] == r2[i] by {
                assert(lhs[i + 1] == r1[i]);
                assert(rhs[i + 1] == r2[i]);
            }
        }
    } else {
        if y.len() == 0 {
            lemma_escape_head(x);
            assert(lhs[0] == escape_seq(x)[0]);
            assert(lhs[0] == '"');
            assert(false);
        }
        lemma_escape_front(x);
        lemma_escape_front(y);
        lemma_escape_head(x);
        lemma_escape_head(y);
        let cx = x[0];
        let cy = y[0];
        if cx == '"' || cx == '\\' {
            // both sides start with a backslash marker
            assert(lhs[0] == '\\');
            assert((cy == '"' || cy == '\\')) by {
                if cy != '"' && cy != '\\' {
                    assert(lhs[0] == cy);
                }
            }
            let rhs = escape_seq(y) + seq!['"'] + r2;
            assert(escape_seq(x).len() >= 2);
            assert(escape_seq(y).len() >= 2);
            assert(escape_seq(x)[1] == escape_char(cx)[1]);
            assert(escape_seq(y)[1] == escape_char(cy)[1]);
            assert(lhs[1] == escape_seq(x)[1]);
            assert(rhs[1] == escape_seq(y)[1]);
            assert(escape_char(cx)[1] == cx);
            assert(escape_char(cy)[1] == cy);
            assert(cx == cy);
            assert(escape_seq(x.drop_first()) + seq!['"'] + r1 =~= escape_seq(y.drop_first())
                + seq!['"'] + r2) by {
                let ea = escape_char(cx);
                let aa = escape_seq(x.drop_first()) + seq!['"'] + r1;
                let bb = escape_seq(y.drop_first()) + seq!['"'] + r2;
                assert(lhs =~= ea + aa);
                assert(lhs =~= ea + bb);
                assert(aa.len() == bb.len());
                assert forall|i: int| 0 <= i < aa.len() implies aa[i] == bb[i] by {
                    assert((ea + aa)[ea.len() + i] == aa[i]);
                    assert((ea + bb)[ea.len() + i] == bb[i]);
                }
            }
            lemma_escape_prefix(x.drop_first(), y.drop_first(), r1, r2);
            assert(x =~= seq![cx] + x.drop_first());
            assert(y =~= seq![cy] + y.drop_first());
        } else {
            assert(lhs[0] == cx);
            assert(!(cy == '"' || cy == '\\')) by {
                if cy == '"' || cy == '\\' {
                    assert(lhs[0] == '\\');
                }
            }
            assert(lhs[0] == cy);
            assert(cx == cy);
            assert(escape_seq(x.drop_first()) + seq!['"'] + r1 =~= escape_seq(y.drop_first())
                + seq!['"'] + r2) by {
                let ea = escape_char(cx);
                let aa = escape_seq(x.drop_first()) + seq!['"'] + r1;
                let bb = escape_seq(y.drop_first()) + seq!['"'] + r2;
                assert(lhs =~= ea + aa);
                assert(lhs =~= ea + bb);
                assert(aa.len() == bb.len());
                assert forall|i: int| 0 <= i < aa.len() implies aa[i] == bb[i] by {
                    assert((ea + aa)[ea.len() + i] == aa[i]);
                    assert((ea + bb)[ea.len() + i] == bb[i]);
                }
            }
            lemma_escape_prefix(x.drop_first(), y.drop_first(), r1, r2);
            assert(x =~= seq![cx] + x.drop_first());
            assert(y =~= seq![cy] + y.drop_first());
        }
    }
}

/// A JSON string determines its content and whatever follows it.
proof fn lemma_string_prefix(x: Seq<char>, y: Seq<char>, r1: Seq<char>, r2: Seq<char>)
    requires
        enc_string(x) + r1 == enc_string(y) + r2,
    ensures
        x == y,
        r1 == r2,
{
    assert(escape_seq(x) + seq!['"'] + r1 =~= escape_seq(y) + seq!['"'] + r2) by {
        let lhs = enc_string(x) + r1;
        assert(lhs =~= seq!['"'] + (escape_seq(x) + seq!['"'] + r1));
        assert(lhs =~= seq!['"'] + (escape_seq(y) + seq!['"'] + r2));
        assert forall|i: int| 0 <= i < escape_seq(x).len() + 1 + r1.len() implies (escape_seq(x)
            + seq!['"'] + r1)[i] == (escape_seq(y) + seq!['"'] + r2)[i] by {
            assert((seq!['"'] + (escape_seq(x) + seq!['"'] + r1))[i + 1] == (escape_seq(x)
                + seq!['"'] + r1)[i]);
            assert((seq!['"'] + (escape_seq(y) + seq!['"'] + r2))[i + 1] == (escape_seq(y)
                + seq!['"'] + r2)[i]);
        }
    }
    lemma_escape_prefix(x, y, r1, r2);
}

proof fn lemma_escape_concat(a: Seq<char>, b: Seq<char>)
    ensures
        escape_seq(a + b) == escape_seq(a) + escape_seq(b),
    decreases b.len(),
{
    if b.len() == 0 {
        assert(a + b =~= a);
        assert(escape_seq(a) + escape_seq(b) =~= escape_seq(a));
    } else {
        lemma_escape_concat(a, b.drop_last());
        assert((a + b).drop_last() =~= a + b.drop_last());
        assert((a + b).last() == b.last());
        assert(escape_seq(b) == escape_seq(b.drop_last()) + escape_char(b.last()));
        assert(escape_seq(a + b) =~= escape_seq(a) + escape_seq(b));
    }
}

/// Where the parse of a JSON string stands: with `acc` the characters read
/// so far out of a candidate content `v`, the next character of the input is
/// forced — the closing quote when `v` is exhausted, else the first
/// character of the escape of what remains.
proof fn lemma_string_continuation(
    s: Seq<char>,
    i: int,
    j: int,
    acc: Seq<char>,
    v: Seq<char>,
    rest: Seq<char>,
)
    requires
        0 <= i < j <= s.len(),
        s.subrange(i, j) == seq!['"'] + escape_seq(acc),
        s.subrange(i, s.len() as int) == enc_string(v) + rest,
        acc.len() <= v.len(),
        v.take(acc.len() as int) == acc,
    ensures
        ({
            let tail = v.skip(acc.len() as int);
            &&& j < s.len()
            &&& (tail.len() == 0 ==> s[j] == '"')
            &&& (tail.len() > 0 ==> s[j] == escape_char(tail[0])[0] && tail[0] == v[acc.len() as int])
            &&& (tail.len() > 0 && (tail[0] == '"' || tail[0] == '\\') ==> j + 1 < s.len() && s[
                j + 1] == tail[0])
        }),
{
    let tail = v.skip(acc.len() as int);
    assert(v =~= acc + tail);
    lemma_escape_concat(acc, tail);
    let ea = escape_seq(acc);
    let et = escape_seq(tail);
    let suffix = s.subrange(i, s.len() as int);
    assert(j - i == 1 + ea.len()) by {
        assert(s.subrange(i, j).len() == j - i);
        assert((seq!['"'] + ea).len() == 1 + ea.len());
    }
    assert(enc_string(v) =~= seq!['"'] + (ea + et) + seq!['"']);
    assert(suffix =~= (seq!['"'] + ea) + (et + seq!['"'] + rest)) by {
        assert(enc_string(v) + rest =~= (seq!['"'] + ea) + (et + seq!['"'] + rest));
    }
    let back = et + seq!['"'] + rest;
    assert(suffix.len() == (1 + ea.len()) + back.len());
    assert(back.len() >= 1);
    assert(j < s.len()) by {
        assert(suffix.len() == s.len() - i);
    }
    assert(s[j] == suffix[j - i]) by {
        assert(suffix[j - i] == s[i + (j - i)]);
    }
    assert(suffix[j - i] == back[0]);
    if tail.len() == 0 {
        assert(et =~= Seq::<char>::empty());
        assert(back[0] == '"');
    } else {
        lemma_escape_front(tail);
        assert(et == escape_char(tail[0]) + escape_seq(tail.drop_first()));
        assert(et[0] == escape_char(tail[0])[0]);
        assert(back[0] == et[0]);
        assert(tail[0] == v[acc.len() as int]);
        if tail[0] == '"' || tail[0] == '\\' {
            assert(escape_char(tail[0]).len() == 2);
            assert(et.len() >= 2);
            assert(j + 1 < s.len()) by {
                assert(suffix.len() >= (1 + ea.len()) + 2 + 1);
            }
            assert(s[j + 1] == suffix[j + 1 - i]) by {
                assert(suffix[j + 1 - i] == s[i + (j + 1 - i)]);
            }
            assert(suffix[j + 1 - i] == back[1]);
            assert(back[1] == et[1]);
            assert(et[1] == escape_char(tail[0])[1]);
            assert(escape_char(tail[0])[1] == tail[0]);
        }
    }
}

fn parse_string(s: &str, i: usize) -> (r: Option<(String, usize)>)
    requires
        i <= s@.len(),
    ensures
        r matches Some(p) ==> i < p.1 <= s@.len() && s@.subrange(i as int, p.1 as int)
            == enc_string(p.0@),
        r is None ==> forall|v: Seq<char>, rest: Seq<char>|
            s@.subrange(i as int, s@.len() as int) != #[trigger] (enc_string(v) + rest),
{
    let n = s.unicode_len();
    if i >= n || s.get_char(i) != '"' {
        proof {
            assert forall|v: Seq<char>, rest: Seq<char>|
                s@.subrange(i as int, s@.len() as int) != #[trigger] (enc_string(v)
                    + rest) by {
                if s@.subrange(i as int, s@.len() as int) == enc_string(v) + rest {
                    assert((enc_string(v) + rest).len() >= 2);
                    assert(s@.subrange(i as int, s@.len() as int).len() == s@.len() - i);
                    assert(i < n);
                    assert(s@.subrange(i as int, s@.len() as int)[0] == s@[i as int]);
                    assert((enc_string(v) + rest)[0] == enc_string(v)[0]);
                    assert(enc_string(v)[0] == (seq!['"'] + escape_seq(v))[0]);
                    assert(s@[i as int] == '"');
                }
            }
        }
        return None;
    }
    let mut acc = String::new();
    let mut j = i + 1;
    proof {
        assert(escape_seq(acc@) =~= Seq::<char>::empty());
        assert(s@.subrange(i as int, j as int) =~= seq!['"'] + escape_seq(acc@));
        assert forall|v: Seq<char>, rest: Seq<char>|
            s@.subrange(i as int, n as int) == #[trigger] (enc_string(v) + rest)
                implies acc@.len() <= v.len() && v.take(acc@.len() as int) == acc@ by {
            assert(v.take(0) =~= acc@);
        }
    }
    loop
        invariant
            n == s@.len(),
            i < n,
            i + 1 <= j <= n,
            s@.subrange(i as int, j as int) == seq!['"'] + escape_seq(acc@),
            forall|v: Seq<char>, rest: Seq<char>|
                s@.subrange(i as int, n as int) == #[trigger] (enc_string(v) + rest)
                    ==> acc@.len() <= v.len() && v.take(acc@.len() as int) == acc@,
        decreases n - j,
    {
        if j >= n {
            proof {
                assert forall|v: Seq<char>, rest: Seq<char>|
                    s@.subrange(i as int, s@.len() as int) != #[trigger] (enc_string(v)
                        + rest) by {
                    if s@.subrange(i as int, s@.len() as int) == enc_string(v) + rest {
                        lemma_string_continuation(s@, i as int, j as int, acc@, v, rest);
                    }
                }
            }
            return None;
        }
        let c = s.get_char(j);
        if c == '"' {
            proof {
                assert(s@.subrange(i as int, j + 1) =~= s@.subrange(i as int, j as int) + seq![
                    s@[j as int],
                ]);
                assert(s@.subrange(i as int, j + 1) =~= enc_string(acc@));
            }
            return Some((acc, j + 1));
        }
        if c == '\\' {
            if j + 1 >= n {
                proof {
                    assert forall|v: Seq<char>, rest: Seq<char>|
                        s@.subrange(i as int, s@.len() as int) != #[trigger] (enc_string(v)
                            + rest) by {
                        if s@.subrange(i as int, s@.len() as int) == enc_string(v) + rest {
                            lemma_string_continuation(s@, i as int, j as int, acc@, v, rest);
                            let tail = v.skip(acc@.len() as int);
                            if tail.len() > 0 {
                                if tail[0] != '"' && tail[0] != '\\' {
                                    assert(escape_char(tail[0]) =~= seq![tail[0]]);
                                    assert(s@[j as int] == tail[0]);
                                }
                            }
                        }
                    }
                }
                return None;
            }
            let d = s.get_char(j + 1);
            if d == '"' || d == '\\' {
                let ghost acc_pre = acc@;
                acc.push(d);
                proof {
                    assert(acc@.drop_last() =~= acc_pre);
                    assert(s@.subrange(i as int, j + 2) =~= s@.subrange(i as int, j as int)
                        + seq![s@[j as int], s@[j + 1]]);
                    assert(s@.subrange(i as int, j + 2) =~= seq!['"'] + escape_seq(acc@));
                    assert forall|v: Seq<char>, rest: Seq<char>|
                        s@.subrange(i as int, n as int) == #[trigger] (enc_string(v) + rest)
                            implies acc@.len() <= v.len() && v.take(acc@.len() as int)
                        == acc@ by {
                        lemma_string_continuation(s@, i as int, j as int, acc_pre, v, rest);
                        let tail = v.skip(acc_pre.len() as int);
                        if tail.len() == 0 {
                            assert(s@[j as int] == '"');
                        }
                        if tail[0] != '"' && tail[0] != '\\' {
                            assert(escape_char(tail[0]) =~= seq![tail[0]]);
                            assert(s@[j as int] == tail[0]);
                        }
                        assert(s@[j + 1] == tail[0]);
                        assert(tail[0] == d);
                        assert(v.take(acc_pre.len() as int + 1) =~= acc_pre.push(
                            v[acc_pre.len() as int],
                        ));
                        assert(v.take(acc@.len() as int) == acc@);
                    }
                }
                j += 2;
            } else {
                proof {
                    assert forall|v: Seq<char>, rest: Seq<char>|
                        s@.subrange(i as int, s@.len() as int) != #[trigger] (enc_string(v)
                            + rest) by {
                        if s@.subrange(i as int, s@.len() as int) == enc_string(v) + rest {
                            lemma_string_continuation(s@, i as int, j as int, acc@, v, rest);
                            let tail = v.skip(acc@.len() as int);
                            if tail.len() > 0 {
                                if tail[0] != '"' && tail[0] != '\\' {
                                    assert(escape_char(tail[0]) =~= seq![tail[0]]);
                                    assert(s@[j as int] == tail[0]);
                                } else {
                                    assert(s@[j + 1] == tail[0]);
                                }
                            }
                        }
                    }
                }
                return None;
            }
        } else {
            let ghost acc_pre = acc@;
            acc.push(c);
            proof {
                assert(acc@.drop_last() =~= acc_pre);
                assert(escape_char(c) =~= seq![c]);
                assert(s@.subrange(i as int, j + 1) =~= s@.subrange(i as int, j as int) + seq![
                    s@[j as int],
                ]);
                assert(s@.subrange(i as int, j + 1) =~= seq!['"'] + escape_seq(acc@));
                assert forall|v: Seq<char>, rest: Seq<char>|
                    s@.subrange(i as int, n as int) == #[trigger] (enc_string(v) + rest)
                        implies acc@.len() <= v.len() && v.take(acc@.len() as int) == acc@ by {
                    lemma_string_continuation(s@, i as int, j as int, acc_pre, v, rest);
                    let tail = v.skip(acc_pre.len() as int);
                    if tail.len() == 0 {
                        assert(s@[j as int] == '"');
                    }
                    if tail[0] == '"' || tail[0] == '\\' {
                        assert(s@[j as int] == escape_char(tail[0])[0]);
                    }
                    assert(escape_char(tail[0]) =~= seq![tail[0]]);
                    assert(s@[j as int] == tail[0]);
                    assert(tail[0] == c);
                    assert(v.take(acc_pre.len() as int + 1) =~= acc_pre.push(v[acc_pre.len() as int]));
                    assert(v.take(acc@.len() as int) == acc@);
                }
            }
            j += 1;
        }
    }
}

/// A non-empty encoded list opens with its first item: the remainder after
/// it is either the closing bracket or a comma and the encoded rest.
proof fn lemma_list_remaining(tail: Seq<Seq<char>>, rem: Seq<char>, rest: Seq<char>)
    requires
        tail.len() > 0,
        rem == enc_list(tail.map_values(|d: Seq<char>| enc_string(d))) + seq![']'] + rest,
    ensures
        rem == enc_string(tail[0]) + (if tail.len() == 1 {
            seq![']'] + rest
        } else {
            seq![','] + (enc_list(tail.drop_first().map_values(|d: Seq<char>| enc_string(d)))
                + seq![']'] + rest)
        }),
{
    let f = |d: Seq<char>| enc_string(d);
    let mapped = tail.map_values(f);
    lemma_enc_list_front(mapped);
    assert(mapped[0] == enc_string(tail[0]));
    if tail.len() == 1 {
        assert(rem =~= enc_string(tail[0]) + (seq![']'] + rest));
    } else {
        assert(mapped.drop_first() =~= tail.drop_first().map_values(f));
        assert(rem =~= enc_string(tail[0]) + (seq![','] + (enc_list(
            tail.drop_first().map_values(f),
        ) + seq![']'] + rest)));
    }
}

fn parse_array(s: &str, i: usize) -> (r: Option<(Vec<String>, usize)>)
    requires
        i <= s@.len(),
    ensures
        r matches Some(p) ==> i < p.1 <= s@.len() && s@.subrange(i as int, p.1 as int)
            == enc_array(views_of(p.0@)),
        r is None ==> forall|ds: Seq<Seq<char>>, rest: Seq<char>|
            s@.subrange(i as int, s@.len() as int) != #[trigger] (enc_array(ds) + rest),
{
    let n = s.unicode_len();
    if i >= n || s.get_char(i) != '[' {
        proof {
            assert forall|ds: Seq<Seq<char>>, rest: Seq<char>|
                s@.subrange(i as int, s@.len() as int) != #[trigger] (enc_array(ds)
                    + rest) by {
                if s@.subrange(i as int, s@.len() as int) == enc_array(ds) + rest {
                    assert((enc_array(ds) + rest).len() >= 2);
                    assert(s@.subrange(i as int, s@.len() as int).len() == s@.len() - i);
                    assert(i < n);
                    assert(s@.subrange(i as int, s@.len() as int)[0] == s@[i as int]);
                    assert((enc_array(ds) + rest)[0] == enc_array(ds)[0]);
                    assert(enc_array(ds)[0] == (seq!['['] + enc_list(
                        ds.map_values(|d: Seq<char>| enc_string(d)),
                    ))[0]);
                    assert(s@[i as int] == '[');
                }
            }
        }
        return None;
    }
    if i + 1 < n && s.get_char(i + 1) == ']' {
        let empty: Vec<String> = Vec::new();
        proof {
            assert(views_of(empty@).map_values(|d: Seq<char>| enc_string(d)) =~= Seq::<
                Seq<char>,
            >::empty());
            assert(s@.subrange(i as int, i + 2) =~= enc_array(views_of(empty@)));
        }
        return Some((empty, i + 2));
    }
    let mut items: Vec<String> = Vec::new();
    let mut cur = i + 1;
    proof {
        assert forall|ds: Seq<Seq<char>>, rest: Seq<char>|
            s@.subrange(i as int, n as int) == #[trigger] (enc_array(ds) + rest) implies {
            &&& items@.len() < ds.len()
            &&& views_of(items@) == ds.take(items@.len() as int)
            &&& s@.subrange(cur as int, n as int) == enc_list(
                ds.skip(items@.len() as int).map_values(|d: Seq<char>| enc_string(d)),
            ) + seq![']'] + rest
        } by {
            let f = |d: Seq<char>| enc_string(d);
            let suffix = s@.subrange(i as int, n as int);
            if ds.len() == 0 {
                assert(ds.map_values(f) =~= Seq::<Seq<char>>::empty());
                assert(enc_array(ds) =~= seq!['[', ']']);
                assert(suffix.len() >= 2);
                assert(suffix[1] == s@[i + 1]);
                assert(suffix[1] == ']') by {
                    assert(suffix =~= seq!['[', ']'] + rest);
                }
                assert(false);
            }
            assert(views_of(items@) =~= ds.take(0));
            assert(suffix =~= seq!['['] + (enc_list(ds.map_values(f)) + seq![']'] + rest)) by {
                assert(enc_array(ds) + rest =~= seq!['['] + (enc_list(ds.map_values(f))
                    + seq![']'] + rest));
            }
            assert(suffix =~= seq![s@[i as int]] + s@.subrange(i + 1, n as int));
            lemma_strip(
                seq!['['],
                s@.subrange(i + 1, n as int),
                enc_list(ds.map_values(f)) + seq![']'] + rest,
            );
            assert(ds.skip(0) =~= ds);
        }
    }
    loop
        invariant
            n == s@.len(),
            i < n,
            i + 1 <= cur <= n,
            items@.len() == 0 ==> s@.subrange(i as int, cur as int) =~= seq!['['],
            items@.len() > 0 ==> s@.subrange(i as int, cur as int) == seq!['['] + enc_list(
                views_of(items@).map_values(|d: Seq<char>| enc_string(d)),
            ) + seq![','],
            forall|ds: Seq<Seq<char>>, rest: Seq<char>|
                s@.subrange(i as int, n as int) == #[trigger] (enc_array(ds) + rest) ==> {
                    &&& items@.len() < ds.len()
                    &&& views_of(items@) == ds.take(items@.len() as int)
                    &&& s@.subrange(cur as int, n as int) == enc_list(
                        ds.skip(items@.len() as int).map_values(|d: Seq<char>| enc_string(d)),
                    ) + seq![']'] + rest
                },
        decreases n - cur,
    {
        let ghost items_pre = items@;
        let parsed = parse_string(s, cur);
        if parsed.is_none() {
            proof {
                assert forall|ds: Seq<Seq<char>>, rest: Seq<char>|
                    s@.subrange(i as int, s@.len() as int) != #[trigger] (enc_array(ds)
                        + rest) by {
                    if s@.subrange(i as int, s@.len() as int) == enc_array(ds) + rest {
                        let tail = ds.skip(items_pre.len() as int);
                        lemma_list_remaining(tail, s@.subrange(cur as int, n as int), rest);
                    }
                }
            }
            return None;
        }
        let (v, j2) = match parsed {
            Some(p) => p,
            None => {
                return None;
            },
        };
        items.push(v);
        proof {
            let f = |d: Seq<char>| enc_string(d);
            assert(views_of(items@).map_values(f).drop_last() =~= views_of(items_pre).map_values(
                f,
            ));
            assert(views_of(items@).map_values(f).last() == enc_string(items@.last()@));
            assert(s@.subrange(i as int, j2 as int) =~= s@.subrange(i as int, cur as int)
                + s@.subrange(cur as int, j2 as int));
            assert(s@.subrange(i as int, j2 as int) =~= seq!['['] + enc_list(
                views_of(items@).map_values(f),
            ));
            assert forall|ds: Seq<Seq<char>>, rest: Seq<char>|
                s@.subrange(i as int, n as int) == #[trigger] (enc_array(ds) + rest) implies {
                &&& items@.len() <= ds.len()
                &&& views_of(items@) == ds.take(items@.len() as int)
                &&& s@.subrange(j2 as int, n as int) == (if items@.len() == ds.len() {
                    seq![']'] + rest
                } else {
                    seq![','] + (enc_list(
                        ds.skip(items@.len() as int).map_values(f),
                    ) + seq![']'] + rest)
                })
            } by {
                let k = items_pre.len() as int;
                let tail = ds.skip(k);
                lemma_list_remaining(tail, s@.subrange(cur as int, n as int), rest);
                assert(s@.subrange(cur as int, n as int) =~= s@.subrange(cur as int, j2 as int)
                    + s@.subrange(j2 as int, n as int));
                lemma_string_prefix(
                    v@,
                    tail[0],
                    s@.subrange(j2 as int, n as int),
                    if tail.len() == 1 {
                        seq![']'] + rest
                    } else {
                        seq![','] + (enc_list(tail.drop_first().map_values(f)) + seq![']']
                            + rest)
                    },
                );
                assert(tail[0] == ds[k]);
                assert(views_of(items@) =~= views_of(items_pre).push(v@));
                assert(ds.take(k + 1) =~= ds.take(k).push(ds[k]));
                assert(tail.drop_first() =~= ds.skip(k + 1));
                if items@.len() < ds.len() {
                    assert(tail.len() > 1);
                }
            }
        }
        cur = j2;
        if cur >= n {
            proof {
                assert forall|ds: Seq<Seq<char>>, rest: Seq<char>|
                    s@.subrange(i as int, s@.len() as int) != #[trigger] (enc_array(ds)
                        + rest) by {
                    if s@.subrange(i as int, s@.len() as int) == enc_array(ds) + rest {
                        assert(s@.subrange(cur as int, n as int).len() >= 1);
                    }
                }
            }
            return None;
        }
        let c = s.get_char(cur);
        if c == ']' {
            proof {
                assert(s@.subrange(i as int, cur + 1) =~= s@.subrange(i as int, cur as int)
                    + seq![s@[cur as int]]);
                assert(s@.subrange(i as int, cur + 1) =~= enc_array(views_of(items@)));
            }
            return Some((items, cur + 1));
        }
        if c == ',' {
            proof {
                assert(s@.subrange(i as int, cur + 1) =~= s@.subrange(i as int, cur as int)
                    + seq![s@[cur as int]]);
                assert forall|ds: Seq<Seq<char>>, rest: Seq<char>|
                    s@.subrange(i as int, n as int) == #[trigger] (enc_array(ds) + rest)
                        implies {
                    &&& items@.len() < ds.len()
                    &&& views_of(items@) == ds.take(items@.len() as int)
                    &&& s@.subrange(cur + 1, n as int) == enc_list(
                        ds.skip(items@.len() as int).map_values(|d: Seq<char>| enc_string(d)),
                    ) + seq![']'] + rest
                } by {
                    let f = |d: Seq<char>| enc_string(d);
                    if items@.len() == ds.len() {
                        assert(s@.subrange(cur as int, n as int)[0] == s@[cur as int]);
                        assert((seq![']'] + rest)[0] == ']');
                        assert(false);
                    }
                    assert(s@.subrange(cur as int, n as int) =~= seq![s@[cur as int]]
                        + s@.subrange(cur + 1, n as int));
                    lemma_strip(
                        seq![','],
                        s@.subrange(cur + 1, n as int),
                        enc_list(ds.skip(items@.len() as int).map_values(f)) + seq![']'] + rest,
                    );
                }
            }
            cur = cur + 1;
        } else {
            proof {
                assert forall|ds: Seq<Seq<char>>, rest: Seq<char>|
                    s@.subrange(i as int, s@.len() as int) != #[trigger] (enc_array(ds)
                        + rest) by {
                    if s@.subrange(i as int, s@.len() as int) == enc_array(ds) + rest {
                        assert(s@.subrange(cur as int, n as int)[0] == s@[cur as int]);
                        if items@.len() == ds.len() {
                            assert((seq![']'] + rest)[0] == ']');
                        } else {
                            assert((seq![','] + (enc_list(
                                ds.skip(items@.len() as int).map_values(
                                    |d: Seq<char>| enc_string(d),
                                ),
                            ) + seq![']'] + rest))[0] == ',');
                        }
                        assert(false);
                    }
                }
            }
            return None;
        }
    }
}

/// Keys are pairwise distinct; what the encoder emits for any well-formed
/// map, and what the decoder insists on.
pub open spec fn uniq_keys(es: Seq<(Seq<char>, Seq<Seq<char>>)>) -> bool {
    forall|a: int, b: int| 0 <= a < b < es.len() ==> (#[trigger] es[a]).0 != (#[trigger] es[b]).0
}

/// A non-empty encoded object opens with its first member's key; after the
/// key come the colon, the member's array, and either the closing brace or
/// a comma and the encoded rest.
proof fn lemma_members_remaining(
    tail: Seq<(Seq<char>, Seq<Seq<char>>)>,
    rem: Seq<char>,
    rest: Seq<char>,
)
    requires
        tail.len() > 0,
        rem == enc_list(tail.map_values(|e: (Seq<char>, Seq<Seq<char>>)| enc_entry(e.0, e.1)))
            + seq!['}'] + rest,
    ensures
        rem == enc_string(tail[0].0) + (seq![':'] + (enc_array(tail[0].1) + (if tail.len() == 1 {
            seq!['}'] + rest
        } else {
            seq![','] + (enc_list(
                tail.drop_first().map_values(|e: (Seq<char>, Seq<Seq<char>>)| enc_entry(e.0, e.1)),
            ) + seq!['}'] + rest)
        }))),
{
    let g = |e: (Seq<char>, Seq<Seq<char>>)| enc_entry(e.0, e.1);
    let mapped = tail.map_values(g);
    lemma_enc_list_front(mapped);
    assert(mapped[0] == enc_entry(tail[0].0, tail[0].1));
    if tail.len() == 1 {
        assert(rem =~= enc_string(tail[0].0) + (seq![':'] + (enc_array(tail[0].1) + (seq!['}']
            + rest))));
    } else {
        assert(mapped.drop_first() =~= tail.drop_first().map_values(g));
        assert(rem =~= enc_string(tail[0].0) + (seq![':'] + (enc_array(tail[0].1) + (seq![',']
            + (enc_list(tail.drop_first().map_values(g)) + seq!['}'] + rest)))));
    }
}

#[verifier::rlimit(100)]
fn parse_entries(s: &str, i: usize) -> (r: Option<(DomainMap, usize)>)
    requires
        i <= s@.len(),
    ensures
        r matches Some(p) ==> i < p.1 <= s@.len() && p.0.wf() && s@.subrange(
            i as int,
            p.1 as int,
        ) == enc_entries(map_models(p.0)),
        r is None ==> forall|es: Seq<(Seq<char>, Seq<Seq<char>>)>, rest: Seq<char>|
            uniq_keys(es) ==> s@.subrange(i as int, s@.len() as int) != #[trigger] (enc_entries(
                es,
            ) + rest),
{
    let n = s.unicode_len();
    if i >= n || s.get_char(i) != '{' {
        proof {
            assert forall|es: Seq<(Seq<char>, Seq<Seq<char>>)>, rest: Seq<char>|
                uniq_keys(es) implies s@.subrange(i as int, s@.len() as int) != #[trigger] (
            enc_entries(es) + rest) by {
                if s@.subrange(i as int, s@.len() as int) == enc_entries(es) + rest {
                    assert((enc_entries(es) + rest).len() >= 2);
                    assert(s@.subrange(i as int, s@.len() as int).len() == s@.len() - i);
                    assert(i < n);
                    assert(s@.subrange(i as int, s@.len() as int)[0] == s@[i as int]);
                    assert((enc_entries(es) + rest)[0] == enc_entries(es)[0]);
                    assert(enc_entries(es)[0] == (seq!['{'] + enc_list(
                        es.map_values(|e: (Seq<char>, Seq<Seq<char>>)| enc_entry(e.0, e.1)),
                    ))[0]);
                    assert(s@[i as int] == '{');
                }
            }
        }
        return None;
    }
    let mut dm = DomainMap { entries: Vec::new() };
    if i + 1 < n && s.get_char(i + 1) == '}' {
        proof {
            assert(map_models(dm).map_values(
                |e: (Seq<char>, Seq<Seq<char>>)| enc_entry(e.0, e.1),
            ) =~= Seq::<Seq<char>>::empty());
            assert(s@.subrange(i as int, i + 2) =~= enc_entries(map_models(dm)));
        }
        return Some((dm, i + 2));
    }
    let mut cur = i + 1;
    proof {
        assert forall|es: Seq<(Seq<char>, Seq<Seq<char>>)>, rest: Seq<char>|
            uniq_keys(es) && s@.subrange(i as int, n as int) == #[trigger] (enc_entries(es)
                + rest) implies {
            &&& dm.entries@.len() < es.len()
            &&& map_models(dm) == es.take(dm.entries@.len() as int)
            &&& s@.subrange(cur as int, n as int) == enc_list(
                es.skip(dm.entries@.len() as int).map_values(
                    |e: (Seq<char>, Seq<Seq<char>>)| enc_entry(e.0, e.1),
                ),
            ) + seq!['}'] + rest
        } by {
            let g = |e: (Seq<char>, Seq<Seq<char>>)| enc_entry(e.0, e.1);
            let suffix = s@.subrange(i as int, n as int);
            if es.len() == 0 {
                assert(es.map_values(g) =~= Seq::<Seq<char>>::empty());
                assert(enc_entries(es) =~= seq!['{', '}']);
                assert(suffix.len() >= 2);
                assert(suffix[1] == s@[i + 1]);
                assert(suffix[1] == '}') by {
                    assert(suffix =~= seq!['{', '}'] + rest);
                }
                assert(false);
            }
            assert(map_models(dm) =~= es.take(0));
            assert(suffix =~= seq!['{'] + (enc_list(es.map_values(g)) + seq!['}'] + rest)) by {
                assert(enc_entries(es) + rest =~= seq!['{'] + (enc_list(es.map_values(g))
                    + seq!['}'] + rest));
            }
            assert(suffix =~= seq![s@[i as int]] + s@.subrange(i + 1, n as int));
            lemma_strip(
                seq!['{'],
                s@.subrange(i + 1, n as int),
                enc_list(es.map_values(g)) + seq!['}'] + rest,
            );
            assert(es.skip(0) =~= es);
        }
    }
    loop
        invariant
            n == s@.len(),
            i < n,
            i + 1 <= cur <= n,
            dm.wf(),
            dm.entries@.len() == 0 ==> s@.subrange(i as int, cur as int) =~= seq!['{'],
            dm.entries@.len() > 0 ==> s@.subrange(i as int, cur as int) == seq!['{'] + enc_list(
                map_models(dm).map_values(|e: (Seq<char>, Seq<Seq<char>>)| enc_entry(e.0, e.1)),
            ) + seq![','],
            forall|es: Seq<(Seq<char>, Seq<Seq<char>>)>, rest: Seq<char>|
                uniq_keys(es) && s@.subrange(i as int, n as int) == #[trigger] (enc_entries(es)
                    + rest) ==> {
                    &&& dm.entries@.len() < es.len()
                    &&& map_models(dm) == es.take(dm.entries@.len() as int)
                    &&& s@.subrange(cur as int, n as int) == enc_list(
                        es.skip(dm.entries@.len() as int).map_values(
                            |e: (Seq<char>, Seq<Seq<char>>)| enc_entry(e.0, e.1),
                        ),
                    ) + seq!['}'] + rest
                },
        decreases n - cur,
    {
        let ghost dm_pre = dm;
        let parsed_key = parse_string(s, cur);
        if parsed_key.is_none() {
            proof {
                assert forall|es: Seq<(Seq<char>, Seq<Seq<char>>)>, rest: Seq<char>|
                    uniq_keys(es) implies s@.subrange(i as int, s@.len() as int) != #[trigger] (
                enc_entries(es) + rest) by {
                    if s@.subrange(i as int, s@.len() as int) == enc_entries(es) + rest {
                        let tail = es.skip(dm_pre.entries@.len() as int);
                        lemma_members_remaining(tail, s@.subrange(cur as int, n as int), rest);
                    }
                }
            }
            return None;
        }
        let (key, j1) = match parsed_key {
            Some(p) => p,
            None => {
                return None;
            },
        };
        proof {
            assert forall|es: Seq<(Seq<char>, Seq<Seq<char>>)>, rest: Seq<char>|
                uniq_keys(es) && s@.subrange(i as int, n as int) == #[trigger] (enc_entries(es)
                    + rest) implies {
                let k = dm_pre.entries@.len() as int;
                &&& key@ == es[k].0
                &&& s@.subrange(j1 as int, n as int) == seq![':'] + (enc_array(es[k].1) + (
                if es.len() == k + 1 {
                    seq!['}'] + rest
                } else {
                    seq![','] + (enc_list(
                        es.skip(k + 1).map_values(
                            |e: (Seq<char>, Seq<Seq<char>>)| enc_entry(e.0, e.1),
                        ),
                    ) + seq!['}'] + rest)
                }))
            } by {
                let g = |e: (Seq<char>, Seq<Seq<char>>)| enc_entry(e.0, e.1);
                let k = dm_pre.entries@.len() as int;
                let tail = es.skip(k);
                lemma_members_remaining(tail, s@.subrange(cur as int, n as int), rest);
                assert(s@.subrange(cur as int, n as int) =~= s@.subrange(cur as int, j1 as int)
                    + s@.subrange(j1 as int, n as int));
                lemma_string_prefix(
                    key@,
                    tail[0].0,
                    s@.subrange(j1 as int, n as int),
                    seq![':'] + (enc_array(tail[0].1) + (if tail.len() == 1 {
                        seq!['}'] + rest
                    } else {
                        seq![','] + (enc_list(tail.drop_first().map_values(g)) + seq!['}']
                            + rest)
                    })),
                );
                assert(tail[0] == es[k]);
                assert(tail.drop_first() =~= es.skip(k + 1));
            }
        }
        if dm.contains_key(key.as_str()) {
            proof {
                assert forall|es: Seq<(Seq<char>, Seq<Seq<char>>)>, rest: Seq<char>|
                    uniq_keys(es) implies s@.subrange(i as int, s@.len() as int) != #[trigger] (
                enc_entries(es) + rest) by {
                    if s@.subrange(i as int, s@.len() as int) == enc_entries(es) + rest {
                        let k = dm_pre.entries@.len() as int;
                        let idx = choose|idx: int|
                            0 <= idx < dm_pre.len_spec() && #[trigger] dm_pre.key_at(idx)
                                == key@;
                        assert(map_models(dm_pre)[idx].0 == dm_pre.key_at(idx));
                        assert(es[idx].0 == key@);
                        assert(es[idx].0 == es[k].0);
                        assert(false);
                    }
                }
            }
            return None;
        }
        if j1 >= n || s.get_char(j1) != ':' {
            proof {
                assert forall|es: Seq<(Seq<char>, Seq<Seq<char>>)>, rest: Seq<char>|
                    uniq_keys(es) implies s@.subrange(i as int, s@.len() as int) != #[trigger] (
                enc_entries(es) + rest) by {
                    if s@.subrange(i as int, s@.len() as int) == enc_entries(es) + rest {
                        assert(s@.subrange(j1 as int, n as int).len() >= 1);
                        assert(j1 < n);
                        assert(s@.subrange(j1 as int, n as int)[0] == s@[j1 as int]);
                        assert(s@[j1 as int] == ':');
                    }
                }
            }
            return None;
        }
        let parsed_arr = parse_array(s, j1 + 1);
        if parsed_arr.is_none() {
            proof {
                assert forall|es: Seq<(Seq<char>, Seq<Seq<char>>)>, rest: Seq<char>|
                    uniq_keys(es) implies s@.subrange(i as int, s@.len() as int) != #[trigger] (
                enc_entries(es) + rest) by {
                    if s@.subrange(i as int, s@.len() as int) == enc_entries(es) + rest {
                        let k = dm_pre.entries@.len() as int;
                        assert(s@.subrange(j1 as int, n as int) =~= seq![s@[j1 as int]]
                            + s@.subrange(j1 + 1, n as int));
                        lemma_strip(
                            seq![':'],
                            s@.subrange(j1 + 1, n as int),
                            enc_array(es[k].1) + (if es.len() == k + 1 {
                                seq!['}'] + rest
                            } else {
                                seq![','] + (enc_list(
                                    es.skip(k + 1).map_values(
                                        |e: (Seq<char>, Seq<Seq<char>>)| enc_entry(e.0, e.1),
                                    ),
                                ) + seq!['}'] + rest)
                            }),
                        );
                    }
                }
            }
            return None;
        }
        let (ds, j2) = match parsed_arr {
            Some(p) => p,
            None => {
                return None;
            },
        };
        dm.entries.push(WorkloadEntry { workload: key, domains: ds });
        proof {
            let g = |e: (Seq<char>, Seq<Seq<char>>)| enc_entry(e.0, e.1);
            assert(map_models(dm).drop_last() =~= map_models(dm_pre));
            assert(map_models(dm).map_values(g).drop_last() =~= map_models(dm_pre).map_values(g));
            assert(map_models(dm).last().0 == dm.entries@.last().workload@);
            assert(map_models(dm).last().1 =~= views_of(dm.entries@.last().domains@));
            assert(map_models(dm).map_values(g).last() == enc_entry(
                dm.entries@.last().workload@,
                views_of(dm.entries@.last().domains@),
            ));
            assert forall|a: int, b: int|
                0 <= a < b < dm.entries@.len() implies #[trigger] dm.entries@[a].workload@
                != #[trigger] dm.entries@[b].workload@ by {
                if b == dm.entries@.len() - 1 {
                    assert(!dm_pre.has_key(dm.entries@[b].workload@));
                    assert(dm_pre.key_at(a) == dm.entries@[a].workload@);
                }
            }
            assert(s@.subrange(i as int, j2 as int) =~= s@.subrange(i as int, cur as int)
                + s@.subrange(cur as int, j1 as int) + seq![s@[j1 as int]] + s@.subrange(
                j1 + 1,
                j2 as int,
            ));
            assert(s@.subrange(i as int, j2 as int) =~= seq!['{'] + enc_list(
                map_models(dm).map_values(g),
            ));
            assert forall|es: Seq<(Seq<char>, Seq<Seq<char>>)>, rest: Seq<char>|
                uniq_keys(es) && s@.subrange(i as int, n as int) == #[trigger] (enc_entries(es)
                    + rest) implies {
                &&& dm.entries@.len() <= es.len()
                &&& map_models(dm) == es.take(dm.entries@.len() as int)
                &&& s@.subrange(j2 as int, n as int) == (if dm.entries@.len() == es.len() {
                    seq!['}'] + rest
                } else {
                    seq![','] + (enc_list(es.skip(dm.entries@.len() as int).map_values(g))
                        + seq!['}'] + rest)
                })
            } by {
                let k = dm_pre.entries@.len() as int;
                let cont = if es.len() == k + 1 {
                    seq!['}'] + rest
                } else {
                    seq![','] + (enc_list(es.skip(k + 1).map_values(g)) + seq!['}'] + rest)
                };
                assert(s@.subrange(j1 as int, n as int) =~= seq![s@[j1 as int]] + s@.subrange(
                    j1 + 1,
                    n as int,
                ));
                lemma_strip(seq![':'], s@.subrange(j1 + 1, n as int), enc_array(es[k].1) + cont);
                assert(s@.subrange(j1 + 1, n as int) =~= s@.subrange(j1 + 1, j2 as int)
                    + s@.subrange(j2 as int, n as int));
                lemma_array_prefix(
                    views_of(ds@),
                    es[k].1,
                    s@.subrange(j2 as int, n as int),
                    cont,
                );
                assert(map_models(dm) =~= map_models(dm_pre).push(
                    (dm.entries@.last().workload@, views_of(dm.entries@.last().domains@)),
                ));
                assert(es.take(k + 1) =~= es.take(k).push(es[k]));
                assert((dm.entries@.last().workload@, views_of(dm.entries@.last().domains@))
                    == es[k]);
            }
        }
        cur = j2;
        if cur >= n {
            proof {
                assert forall|es: Seq<(Seq<char>, Seq<Seq<char>>)>, rest: Seq<char>|
                    uniq_keys(es) implies s@.subrange(i as int, s@.len() as int) != #[trigger] (
                enc_entries(es) + rest) by {
                    if s@.subrange(i as int, s@.len() as int) == enc_entries(es) + rest {
                        assert(s@.subrange(cur as int, n as int).len() >= 1);
                    }
                }
            }
            return None;
        }
        let c = s.get_char(cur);
        if c == '}' {
            proof {
                assert(s@.subrange(i as int, cur + 1) =~= s@.subrange(i as int, cur as int)
                    + seq![s@[cur as int]]);
                assert(s@.subrange(i as int, cur + 1) =~= enc_entries(map_models(dm)));
            }
            return Some((dm, cur + 1));
        }
        if c == ',' {
            proof {
                assert(s@.subrange(i as int, cur + 1) =~= s@.subrange(i as int, cur as int)
                    + seq![s@[cur as int]]);
                assert forall|es: Seq<(Seq<char>, Seq<Seq<char>>)>, rest: Seq<char>|
                    uniq_keys(es) && s@.subrange(i as int, n as int) == #[trigger] (enc_entries(
                        es,
                    ) + rest) implies {
                    &&& dm.entries@.len() < es.len()
                    &&& map_models(dm) == es.take(dm.entries@.len() as int)
                    &&& s@.subrange(cur + 1, n as int) == enc_list(
                        es.skip(dm.entries@.len() as int).map_values(
                            |e: (Seq<char>, Seq<Seq<char>>)| enc_entry(e.0, e.1),
                        ),
                    ) + seq!['}'] + rest
                } by {
                    let g = |e: (Seq<char>, Seq<Seq<char>>)| enc_entry(e.0, e.1);
                    if dm.entries@.len() == es.len() {
                        assert(s@.subrange(cur as int, n as int)[0] == s@[cur as int]);
                        assert((seq!['}'] + rest)[0] == '}');
                        assert(false);
                    }
                    assert(s@.subrange(cur as int, n as int) =~= seq![s@[cur as int]]
                        + s@.subrange(cur + 1, n as int));
                    lemma_strip(
                        seq![','],
                        s@.subrange(cur + 1, n as int),
                        enc_list(es.skip(dm.entries@.len() as int).map_values(g)) + seq!['}']
                            + rest,
                    );
                }
            }
            cur = cur + 1;
        } else {
            proof {
                assert forall|es: Seq<(Seq<char>, Seq<Seq<char>>)>, rest: Seq<char>|
                    uniq_keys(es) implies s@.subrange(i as int, s@.len() as int) != #[trigger] (
                enc_entries(es) + rest) by {
                    if s@.subrange(i as int, s@.len() as int) == enc_entries(es) + rest {
                        assert(s@.subrange(cur as int, n as int)[0] == s@[cur as int]);
                        if dm.entries@.len() == es.len() {
                            assert((seq!['}'] + rest)[0] == '}');
                        } else {
                            assert((seq![','] + (enc_list(
                                es.skip(dm.entries@.len() as int).map_values(
                                    |e: (Seq<char>, Seq<Seq<char>>)| enc_entry(e.0, e.1),
                                ),
                            ) + seq!['}'] + rest))[0] == ',');
                        }
                        assert(false);
                    }
                }
            }
            return None;
        }
    }
}

proof fn lemma_wf_uniq(m: DomainMap)
    requires
        m.wf(),
    ensures
        uniq_keys(map_models(m)),
{
    assert forall|a: int, b: int|
        0 <= a < b < map_models(m).len() implies (#[trigger] map_models(m)[a]).0 != (
    #[trigger] map_models(m)[b]).0 by {
        assert(m.entries@[a].workload@ != m.entries@[b].workload@);
    }
}

proof fn lemma_state_decomposition(s: Seq<char>, st: AggregatedState)
    requires
        s == enc_state(st),
    ensures
        s.len() == "{\"internal\":"@.len() + enc_entries(map_models(st.internal)).len()
            + ",\"external\":"@.len() + enc_entries(map_models(st.external)).len() + 1,
        s.subrange(0, "{\"internal\":"@.len() as int) == "{\"internal\":"@,
        s.subrange("{\"internal\":"@.len() as int, s.len() as int) == enc_entries(
            map_models(st.internal),
        ) + (",\"external\":"@ + enc_entries(map_models(st.external)) + seq!['}']),
{
    let h = "{\"internal\":"@;
    let tail1 = enc_entries(map_models(st.internal)) + (",\"external\":"@ + enc_entries(
        map_models(st.external),
    ) + seq!['}']);
    assert(s =~= h + tail1);
    assert(s.subrange(0, h.len() as int) =~= h);
    assert(s.subrange(h.len() as int, s.len() as int) =~= tail1);
}

/// Decodes one snapshot from its wire form: the canonical encoding and
/// nothing else. Whenever this returns a snapshot, that snapshot is well
/// formed and re-encodes, character for character, to the whole input; and
/// on every canonical encoding — every wire form some well-formed snapshot
/// encodes to — decoding is owed, and returns, a snapshot.
#[verifier::rlimit(100)]
pub fn decode_state(s: &str) -> (r: Option<AggregatedState>)
    ensures
        r matches Some(st) ==> st.wf() && s@ == enc_state(st),
        (exists|st: AggregatedState| st.wf() && s@ == #[trigger] enc_state(st)) ==> r is Some,
{
    let n = s.unicode_len();
    let head = "{\"internal\":";
    let hl = head.unicode_len();
    if hl > n || !match_at(s, head, 0) {
        proof {
            if exists|st: AggregatedState| st.wf() && s@ == #[trigger] enc_state(st) {
                let st = choose|st: AggregatedState| st.wf() && s@ == #[trigger] enc_state(st);
                lemma_state_decomposition(s@, st);
            }
        }
        return None;
    }
    let parsed_int = parse_entries(s, hl);
    if parsed_int.is_none() {
        proof {
            if exists|st: AggregatedState| st.wf() && s@ == #[trigger] enc_state(st) {
                let st = choose|st: AggregatedState| st.wf() && s@ == #[trigger] enc_state(st);
                lemma_state_decomposition(s@, st);
                lemma_wf_uniq(st.internal);
                assert(s@.subrange(hl as int, n as int) == enc_entries(map_models(st.internal))
                    + (",\"external\":"@ + enc_entries(map_models(st.external)) + seq!['}']));
                assert(false);
            }
        }
        return None;
    }
    let (mi, c1) = match parsed_int {
        Some(p) => p,
        None => {
            return None;
        },
    };
    let sep = ",\"external\":";
    let sl = sep.unicode_len();
    if sl > n - c1 || !match_at(s, sep, c1) {
        proof {
            if exists|st: AggregatedState| st.wf() && s@ == #[trigger] enc_state(st) {
                let st = choose|st: AggregatedState| st.wf() && s@ == #[trigger] enc_state(st);
                lemma_state_decomposition(s@, st);
                let rest1 = ",\"external\":"@ + enc_entries(map_models(st.external))
                    + seq!['}'];
                assert(s@.subrange(hl as int, n as int) =~= s@.subrange(hl as int, c1 as int)
                    + s@.subrange(c1 as int, n as int));
                lemma_entries_prefix(
                    map_models(mi),
                    map_models(st.internal),
                    s@.subrange(c1 as int, n as int),
                    rest1,
                );
                assert(s@.subrange(c1 as int, n as int) =~= sep@ + (enc_entries(
                    map_models(st.external),
                ) + seq!['}']));
                assert(s@.subrange(c1 as int, c1 + sl) =~= sep@) by {
                    assert forall|x: int| 0 <= x < sl implies s@.subrange(c1 as int, c1 + sl)[x]
                        == sep@[x] by {
                        assert(s@.subrange(c1 as int, c1 + sl)[x] == s@[c1 + x]);
                        assert(s@.subrange(c1 as int, n as int)[x] == s@[c1 + x]);
                        assert((sep@ + (enc_entries(map_models(st.external)) + seq!['}']))[x]
                            == sep@[x]);
                    }
                }
                assert(false);
            }
        }
        return None;
    }
    let parsed_ext = parse_entries(s, c1 + sl);
    if parsed_ext.is_none() {
        proof {
            if exists|st: AggregatedState| st.wf() && s@ == #[trigger] enc_state(st) {
                let st = choose|st: AggregatedState| st.wf() && s@ == #[trigger] enc_state(st);
                lemma_state_decomposition(s@, st);
                lemma_wf_uniq(st.external);
                let rest1 = ",\"external\":"@ + enc_entries(map_models(st.external))
                    + seq!['}'];
                assert(s@.subrange(hl as int, n as int) =~= s@.subrange(hl as int, c1 as int)
                    + s@.subrange(c1 as int, n as int));
                lemma_entries_prefix(
                    map_models(mi),
                    map_models(st.internal),
                    s@.subrange(c1 as int, n as int),
                    rest1,
                );
                assert(s@.subrange(c1 as int, n as int) =~= sep@ + (enc_entries(
                    map_models(st.external),
                ) + seq!['}']));
                assert(s@.subrange(c1 as int, n as int) =~= s@.subrange(c1 as int, c1 + sl)
                    + s@.subrange(c1 + sl, n as int));
                lemma_strip(
                    sep@,
                    s@.subrange(c1 + sl, n as int),
                    enc_entries(map_models(st.external)) + seq!['}'],
                );
                assert(false);
            }
        }
        return None;
    }
    let (me, c2) = match parsed_ext {
        Some(p) => p,
        None => {
            return None;
        },
    };
    if !(c2 < n && c2 + 1 == n && s.get_char(c2) == '}') {
        proof {
            if exists|st: AggregatedState| st.wf() && s@ == #[trigger] enc_state(st) {
                let st = choose|st: AggregatedState| st.wf() && s@ == #[trigger] enc_state(st);
                lemma_state_decomposition(s@, st);
                let rest1 = ",\"external\":"@ + enc_entries(map_models(st.external))
                    + seq!['}'];
                assert(s@.subrange(hl as int, n as int) =~= s@.subrange(hl as int, c1 as int)
                    + s@.subrange(c1 as int, n as int));
                lemma_entries_prefix(
                    map_models(mi),
                    map_models(st.internal),
                    s@.subrange(c1 as int, n as int),
                    rest1,
                );
                assert(s@.subrange(c1 as int, n as int) =~= sep@ + (enc_entries(
                    map_models(st.external),
                ) + seq!['}']));
                assert(s@.subrange(c1 as int, n as int) =~= s@.subrange(c1 as int, c1 + sl)
                    + s@.subrange(c1 + sl, n as int));
                lemma_strip(
                    sep@,
                    s@.subrange(c1 + sl, n as int),
                    enc_entries(map_models(st.external)) + seq!['}'],
                );
                assert(s@.subrange(c1 + sl, n as int) =~= s@.subrange(c1 + sl, c2 as int)
                    + s@.subrange(c2 as int, n as int));
                lemma_entries_prefix(
                    map_models(me),
                    map_models(st.external),
                    s@.subrange(c2 as int, n as int),
                    seq!['}'],
                );
                assert(s@.subrange(c2 as int, n as int).len() == 1);
                assert(s@[c2 as int] == s@.subrange(c2 as int, n as int)[0]);
                assert(false);
            }
        }
        return None;
    }
    let st = AggregatedState { internal: mi, external: me };
    proof {
        assert(s@ =~= s@.subrange(0, hl as int) + s@.subrange(hl as int, c1 as int) + s@.subrange(
            c1 as int,
            c1 + sl,
        ) + s@.subrange(c1 + sl, c2 as int) + seq![s@[c2 as int]]);
        assert(s@.subrange(0, hl as int) == head@);
        assert(s@.subrange(c1 as int, c1 + sl) == sep@);
        assert(s@ =~= enc_state(st));
    }
    Some(st)
}

proof fn lemma_strip(p: Seq<char>, a: Seq<char>, b: Seq<char>)
    requires
        p + a == p + b,
    ensures
        a == b,
{
    assert((p + a).len() == p.len() + a.len());
    assert((p + b).len() == p.len() + b.len());
    assert(a.len() == b.len());
    assert forall|i: int| 0 <= i < a.len() implies a[i] == b[i] by {
        assert((p + a)[p.len() + i] == a[i]);
        assert((p + b)[p.len() + i] == b[i]);
    }
    assert(a =~= b);
}

proof fn lemma_enc_list_front(items: Seq<Seq<char>>)
    requires
        items.len() > 0,
    ensures
        enc_list(items) == items[0] + (if items.len() == 1 {
            Seq::<char>::empty()
        } else {
            seq![','] + enc_list(items.drop_first())
        }),
    decreases items.len(),
{
    if items.len() == 1 {
        assert(enc_list(items) =~= items[0] + Seq::<char>::empty());
    } else if items.len() == 2 {
        assert(items.drop_last()[0] == items[0]);
        assert(items.drop_first()[0] == items[1]);
        assert(enc_list(items.drop_last()) == items.drop_last()[0]);
        assert(enc_list(items.drop_first()) == items.drop_first()[0]);
        assert(enc_list(items) =~= items[0] + (seq![','] + enc_list(items.drop_first())));
    } else {
        lemma_enc_list_front(items.drop_last());
        assert(items.drop_last()[0] == items[0]);
        assert(items.drop_last().drop_first() =~= items.drop_first().drop_last());
        assert(items.drop_first().last() == items.last());
        assert(items.drop_first().len() >= 2);
        assert(enc_list(items.drop_first()) == enc_list(items.drop_first().drop_last()) + seq![
            ','
        ] + items.drop_first().last());
        assert(enc_list(items) =~= items[0] + (seq![','] + enc_list(items.drop_first())));
    }
}

#[verifier::rlimit(80)]
proof fn lemma_array_prefix(a: Seq<Seq<char>>, b: Seq<Seq<char>>, r1: Seq<char>, r2: Seq<char>)
    requires
        enc_array(a) + r1 == enc_array(b) + r2,
    ensures
        a == b,
        r1 == r2,
    decreases a.len(),
{
    let f = |d: Seq<char>| enc_string(d);
    let ia = a.map_values(f);
    let ib = b.map_values(f);
    let lhs = enc_array(a) + r1;
    let rhs = enc_array(b) + r2;
    if a.len() == 0 {
        assert(enc_list(ia) =~= Seq::<char>::empty());
        assert(lhs[1] == ']');
        if b.len() > 0 {
            lemma_enc_list_front(ib);
            assert(ib[0] == enc_string(b[0]));
            assert(enc_list(ib)[0] == ib[0][0]);
            assert(ib[0][0] == '"');
            assert(rhs[1] == enc_list(ib)[0]);
            assert(false);
        }
        assert(a =~= b);
        assert(r1 =~= r2) by {
            assert(enc_array(a).len() == 2);
            assert(enc_array(b).len() == 2);
            assert(lhs.len() == rhs.len());
            assert forall|i: int| 0 <= i < r1.len() implies r1[i] == r2[i] by {
                assert(lhs[2 + i] == r1[i]);
                assert(rhs[2 + i] == r2[i]);
            }
        }
    } else {
        if b.len() == 0 {
            assert(enc_list(ib) =~= Seq::<char>::empty());
            assert(rhs[1] == ']');
            lemma_enc_list_front(ia);
            assert(ia[0] == enc_string(a[0]));
            assert(enc_list(ia)[0] == ia[0][0]);
            assert(ia[0][0] == '"');
            assert(lhs[1] == enc_list(ia)[0]);
            assert(false);
        }
        lemma_enc_list_front(ia);
        lemma_enc_list_front(ib);
        let resta = (if a.len() == 1 {
            Seq::<char>::empty()
        } else {
            seq![','] + enc_list(ia.drop_first())
        }) + seq![']'] + r1;
        let restb = (if b.len() == 1 {
            Seq::<char>::empty()
        } else {
            seq![','] + enc_list(ib.drop_first())
        }) + seq![']'] + r2;
        assert(ia[0] == enc_string(a[0]));
        assert(ib[0] == enc_string(b[0]));
        assert(lhs =~= seq!['['] + (enc_string(a[0]) + resta));
        assert(rhs =~= seq!['['] + (enc_string(b[0]) + restb));
        lemma_strip(seq!['['], enc_string(a[0]) + resta, enc_string(b[0]) + restb);
        lemma_string_prefix(a[0], b[0], resta, restb);
        if a.len() == 1 {
            assert(resta[0] == ']');
            if b.len() > 1 {
                assert(restb[0] == ',');
                assert(false);
            }
            assert(a =~= b);
            assert(resta =~= seq![']'] + r1);
            assert(restb =~= seq![']'] + r2);
            lemma_strip(seq![']'], r1, r2);
        } else {
            assert(resta[0] == ',');
            if b.len() == 1 {
                assert(restb[0] == ']');
                assert(false);
            }
            assert(resta =~= seq![','] + (enc_list(ia.drop_first()) + seq![']'] + r1));
            assert(restb =~= seq![','] + (enc_list(ib.drop_first()) + seq![']'] + r2));
            lemma_strip(
                seq![','],
                enc_list(ia.drop_first()) + seq![']'] + r1,
                enc_list(ib.drop_first()) + seq![']'] + r2,
            );
            assert(ia.drop_first() =~= a.drop_first().map_values(f));
            assert(ib.drop_first() =~= b.drop_first().map_values(f));
            assert(enc_array(a.drop_first()) + r1 =~= seq!['['] + (enc_list(ia.drop_first())
                + seq![']'] + r1));
            assert(enc_array(b.drop_first()) + r2 =~= seq!['['] + (enc_list(ib.drop_first())
                + seq![']'] + r2));
            lemma_array_prefix(a.drop_first(), b.drop_first(), r1, r2);
            assert(a =~= seq![a[0]] + a.drop_first());
            assert(b =~= seq![b[0]] + b.drop_first());
        }
    }
}

#[verifier::rlimit(80)]
proof fn lemma_entries_prefix(
    a: Seq<(Seq<char>, Seq<Seq<char>>)>,
    b: Seq<(Seq<char>, Seq<Seq<char>>)>,
    r1: Seq<char>,
    r2: Seq<char>,
)
    requires
        enc_entries(a) + r1 == enc_entries(b) + r2,
    ensures
        a == b,
        r1 == r2,
    decreases a.len(),
{
    let g = |e: (Seq<char>, Seq<Seq<char>>)| enc_entry(e.0, e.1);
    let ia = a.map_values(g);
    let ib = b.map_values(g);
    let lhs = enc_entries(a) + r1;
    let rhs = enc_entries(b) + r2;
    if a.len() == 0 {
        assert(enc_list(ia) =~= Seq::<char>::empty());
        assert(lhs[1] == '}');
        if b.len() > 0 {
            lemma_enc_list_front(ib);
            assert(ib[0] == enc_entry(b[0].0, b[0].1));
            assert(enc_list(ib)[0] == ib[0][0]);
            assert(ib[0][0] == '"');
            assert(rhs[1] == enc_list(ib)[0]);
            assert(false);
        }
        assert(a =~= b);
        assert(r1 =~= r2) by {
            assert(enc_entries(a) =~= seq!['{', '}']);
            assert(enc_entries(b) =~= seq!['{', '}']);
            assert(seq!['{', '}'] + r1 == seq!['{', '}'] + r2);
            lemma_strip(seq!['{', '}'], r1, r2);
        }
    } else {
        if b.len() == 0 {
            assert(enc_list(ib) =~= Seq::<char>::empty());
            assert(rhs[1] == '}');
            lemma_enc_list_front(ia);
            assert(ia[0] == enc_entry(a[0].0, a[0].1));
            assert(enc_list(ia)[0] == ia[0][0]);
            assert(ia[0][0] == '"');
            assert(lhs[1] == enc_list(ia)[0]);
            assert(false);
        }
        lemma_enc_list_front(ia);
        lemma_enc_list_front(ib);
        let resta = (if a.len() == 1 {
            Seq::<char>::empty()
        } else {
            seq![','] + enc_list(ia.drop_first())
        }) + seq!['}'] + r1;
        let restb = (if b.len() == 1 {
            Seq::<char>::empty()
        } else {
            seq![','] + enc_list(ib.drop_first())
        }) + seq!['}'] + r2;
        assert(ia[0] == enc_entry(a[0].0, a[0].1));
        assert(ib[0] == enc_entry(b[0].0, b[0].1));
        assert(lhs =~= seq!['{'] + (enc_string(a[0].0) + ((seq![':'] + enc_array(a[0].1))
            + resta)));
        assert(rhs =~= seq!['{'] + (enc_string(b[0].0) + ((seq![':'] + enc_array(b[0].1))
            + restb)));
        lemma_strip(
            seq!['{'],
            enc_string(a[0].0) + ((seq![':'] + enc_array(a[0].1)) + resta),
            enc_string(b[0].0) + ((seq![':'] + enc_array(b[0].1)) + restb),
        );
        lemma_string_prefix(
            a[0].0,
            b[0].0,
            (seq![':'] + enc_array(a[0].1)) + resta,
            (seq![':'] + enc_array(b[0].1)) + restb,
        );
        assert((seq![':'] + enc_array(a[0].1)) + resta =~= seq![':'] + (enc_array(a[0].1)
            + resta));
        assert((seq![':'] + enc_array(b[0].1)) + restb =~= seq![':'] + (enc_array(b[0].1)
            + restb));
        lemma_strip(seq![':'], enc_array(a[0].1) + resta, enc_array(b[0].1) + restb);
        lemma_array_prefix(a[0].1, b[0].1, resta, restb);
        assert(a[0] == b[0]);
        if a.len() == 1 {
            assert(resta[0] == '}');
            if b.len() > 1 {
                assert(restb[0] == ',');
                assert(false);
            }
            assert(a =~= b);
            assert(resta =~= seq!['}'] + r1);
            assert(restb =~= seq!['}'] + r2);
            lemma_strip(seq!['}'], r1, r2);
        } else {
            assert(resta[0] == ',');
            if b.len() == 1 {
                assert(restb[0] == '}');
                assert(false);
            }
            assert(resta =~= seq![','] + (enc_list(ia.drop_first()) + seq!['}'] + r1));
            assert(restb =~= seq![','] + (enc_list(ib.drop_first()) + seq!['}'] + r2));
            lemma_strip(
                seq![','],
                enc_list(ia.drop_first()) + seq!['}'] + r1,
                enc_list(ib.drop_first()) + seq!['}'] + r2,
            );
            assert(ia.drop_first() =~= a.drop_first().map_values(g));
            assert(ib.drop_first() =~= b.drop_first().map_values(g));
            assert(enc_entries(a.drop_first()) + r1 =~= seq!['{'] + (enc_list(ia.drop_first())
                + seq!['}'] + r1));
            assert(enc_entries(b.drop_first()) + r2 =~= seq!['{'] + (enc_list(ib.drop_first())
                + seq!['}'] + r2));
            lemma_entries_prefix(a.drop_first(), b.drop_first(), r1, r2);
            assert(a =~= seq![a[0]] + a.drop_first());
            assert(b =~= seq![b[0]] + b.drop_first());
        }
    }
}

/// Law (round trip): the wire form pins the snapshot down. Two snapshots
/// with the same encoding carry the same entries, key for key and domain
/// for domain, duplicates included. Together with `decode_state`'s contract
/// — every canonical encoding is accepted, and whatever is accepted
/// re-encodes to the whole input — decoding an encoded snapshot succeeds
/// and yields a structurally identical one.
pub proof fn lemma_encoding_injective(a: AggregatedState, b: AggregatedState)
    requires
        enc_state(a) == enc_state(b),
    ensures
        map_models(a.internal) == map_models(b.internal),
        map_models(a.external) == map_models(b.external),
{
    let h = "{\"internal\":"@;
    let m = ",\"external\":"@;
    let ta = m + enc_entries(map_models(a.external)) + seq!['}'];
    let tb = m + enc_entries(map_models(b.external)) + seq!['}'];
    assert(enc_state(a) =~= h + (enc_entries(map_models(a.internal)) + ta));
    assert(enc_state(b) =~= h + (enc_entries(map_models(b.internal)) + tb));
    lemma_strip(
        h,
        enc_entries(map_models(a.internal)) + ta,
        enc_entries(map_models(b.internal)) + tb,
    );
    lemma_entries_prefix(map_models(a.internal), map_models(b.internal), ta, tb);
    assert(ta =~= m + (enc_entries(map_models(a.external)) + seq!['}']));
    assert(tb =~= m + (enc_entries(map_models(b.external)) + seq!['}']));
    lemma_strip(
        m,
        enc_entries(map_models(a.external)) + seq!['}'],
        enc_entries(map_models(b.external)) + seq!['}'],
    );
    lemma_entries_prefix(
        map_models(a.external),
        map_models(b.external),
        seq!['}'],
        seq!['}'],
    );
}

} // verus!
