//! The snapshot form of the deduplication state: one human-readable object
//! `{"sent_releases":{"owner/name":id,...}}`, rewritten in full each cycle.

use vstd::prelude::*;
use vstd::string::*;
use crate::state::{keys_distinct, NotificationState, StateModel};

verus! {

/// The decimal digit with value `d`.
pub open spec fn digit_char(d: nat) -> char {
    if d == 0 {
        '0'
    } else if d == 1 {
        '1'
    } else if d == 2 {
        '2'
    } else if d == 3 {
        '3'
    } else if d == 4 {
        '4'
    } else if d == 5 {
        '5'
    } else if d == 6 {
        '6'
    } else if d == 7 {
        '7'
    } else if d == 8 {
        '8'
    } else {
        '9'
    }
}

/// `n` written in decimal, most significant digit first, without leading
/// zeroes.
pub open spec fn dec_digits(n: nat) -> Seq<char>
    decreases n,
{
    if n < 10 {
        seq![digit_char(n)]
    } else {
        dec_digits(n / 10).push(digit_char(n % 10))
    }
}

/// A key free of quotes: the one property that keeps the quoted form
/// unambiguous.
pub open spec fn key_quote_free(k: Seq<char>) -> bool {
    forall|i: int| 0 <= i < k.len() ==> (#[trigger] k[i]) != '"'
}

/// Every key of the state is free of quotes.
pub open spec fn keys_quote_free(m: StateModel) -> bool {
    forall|i: int| 0 <= i < m.len() ==> key_quote_free((#[trigger] m[i]).0)
}

/// A repository key the snapshot can carry verbatim: no quote, no
/// backslash, no control character.
pub open spec fn key_ok(k: Seq<char>) -> bool {
    key_quote_free(k) && forall|i: int|
        0 <= i < k.len() ==> (#[trigger] k[i]) != '\\' && (k[i] as u32) >= 32
}

/// Every key of the state can be carried verbatim.
pub open spec fn keys_ok(m: StateModel) -> bool {
    forall|i: int| 0 <= i < m.len() ==> key_ok((#[trigger] m[i]).0)
}

/// A state the snapshot can faithfully hold: distinct keys, each carried
/// verbatim.
pub open spec fn valid_model(m: StateModel) -> bool {
    keys_distinct(m) && keys_ok(m)
}

/// One entry's text: the quoted key, a colon, the id in decimal.
pub open spec fn entry_json(k: Seq<char>, id: u32) -> Seq<char> {
    seq!['"'] + k + seq!['"', ':'] + dec_digits(id as nat)
}

/// All entries' text, in storage order, separated by commas.
pub open spec fn entries_json(m: StateModel) -> Seq<char>
    decreases m.len(),
{
    if m.len() == 0 {
        Seq::<char>::empty()
    } else if m.len() == 1 {
        entry_json(m[0].0, m[0].1)
    } else {
        entry_json(m[0].0, m[0].1) + seq![','] + entries_json(m.drop_first())
    }
}

/// The whole snapshot text of a state.
pub open spec fn json_of(m: StateModel) -> Seq<char> {
    "{\"sent_releases\":{"@ + entries_json(m) + "}}"@
}

/// Where entry `c`'s text begins in the snapshot: past the eighteen
/// characters of the lead-in, the earlier entries, and the comma before it.
pub open spec fn entry_pos(m: StateModel, c: int) -> int {
    18 + if c == 0 {
        0int
    } else {
        entries_json(m.take(c)).len() as int + 1
    }
}

/// Appending an entry at the back extends the entries' text at the back.
pub proof fn lemma_entries_json_push(m: StateModel, p: (Seq<char>, u32))
    ensures
        entries_json(m.push(p)) == if m.len() == 0 {
            entry_json(p.0, p.1)
        } else {
            entries_json(m) + seq![','] + entries_json(seq![p])
        },
    decreases m.len(),
{
    let mp = m.push(p);
    if m.len() == 0 {
        assert(mp.len() == 1);
        assert(mp[0] == p);
    } else {
        assert(mp[0] == m[0]);
        assert(mp.drop_first() =~= m.drop_first().push(p));
        lemma_entries_json_push(m.drop_first(), p);
        if m.len() == 1 {
            assert(m.drop_first().len() == 0);
            assert(seq![p][0] == p);
            assert(entries_json(mp) == entry_json(m[0].0, m[0].1) + seq![','] + entry_json(
                p.0,
                p.1,
            ));
            assert(entries_json(seq![p]) == entry_json(p.0, p.1));
        } else {
            assert(entry_json(mp[0].0, mp[0].1) + seq![','] + (entries_json(m.drop_first())
                + seq![','] + entries_json(seq![p])) =~= (entry_json(m[0].0, m[0].1) + seq![',']
                + entries_json(m.drop_first())) + seq![','] + entries_json(seq![p]));
        }
    }
}

/// The decimal digit with value `d`, as a one-character text.
fn digit_str(d: u32) -> (s: &'static str)
    requires
        d < 10,
    ensures
        s@ == seq![digit_char(d as nat)],
{
    proof {
        reveal_strlit("0");
        reveal_strlit("1");
        reveal_strlit("2");
        reveal_strlit("3");
        reveal_strlit("4");
        reveal_strlit("5");
        reveal_strlit("6");
        reveal_strlit("7");
        reveal_strlit("8");
        reveal_strlit("9");
    }
    if d == 0 {
        "0"
    } else if d == 1 {
        "1"
    } else if d == 2 {
        "2"
    } else if d == 3 {
        "3"
    } else if d == 4 {
        "4"
    } else if d == 5 {
        "5"
    } else if d == 6 {
        "6"
    } else if d == 7 {
        "7"
    } else if d == 8 {
        "8"
    } else {
        "9"
    }
}

/// `n` in decimal.
fn u32_to_digits(n: u32) -> (s: String)
    ensures
        s@ == dec_digits(n as nat),
    decreases n,
{
    if n < 10 {
        digit_str(n).to_owned()
    } else {
        let mut s = u32_to_digits(n / 10);
        s.append(digit_str(n % 10));
        proof {
            assert(s@ =~= dec_digits((n / 10) as nat).push(digit_char((n % 10) as nat)));
        }
        s
    }
}

/// Write the whole snapshot text of a state. An empty state yields
/// `{"sent_releases":{}}`.
pub fn save_state(state: &NotificationState) -> (out: String)
    ensures
        out@ == json_of(state@),
{
    let ghost m = state@;
    let mut out = "{\"sent_releases\":{".to_owned();
    let mut i: usize = 0;
    proof {
        assert(m.take(0) =~= Seq::<(Seq<char>, u32)>::empty());
        assert(out@ + Seq::<char>::empty() =~= out@);
    }
    while i < state.len()
        invariant
            m == state@,
            i <= m.len(),
            out@ == "{\"sent_releases\":{"@ + entries_json(m.take(i as int)),
        decreases m.len() - i,
    {
        let ghost pre = m.take(i as int);
        if i > 0 {
            out.append(",");
            proof {
                reveal_strlit(",");
            }
        }
        let (repo, id) = state.entry_at(i);
        out.append("\"");
        out.append(repo.as_str());
        out.append("\":");
        let digits = u32_to_digits(id);
        out.append(digits.as_str());
        proof {
            reveal_strlit("\"");
            reveal_strlit("\":");
            assert(m.take(i + 1) =~= pre.push(m[i as int]));
            lemma_entries_json_push(pre, m[i as int]);
            assert(entries_json(seq![m[i as int]]) == entry_json(m[i as int].0, m[i as int].1));
            assert(out@ =~= "{\"sent_releases\":{"@ + entries_json(m.take(i + 1)));
        }
        i = i + 1;
    }
    out.append("}}");
    proof {
        reveal_strlit("}}");
        assert(m.take(m.len() as int) =~= m);
        assert(out@ =~= json_of(m));
    }
    out
}

/// The value of a decimal digit sequence, most significant first.
pub open spec fn dec_value(ds: Seq<char>) -> nat
    decreases ds.len(),
{
    if ds.len() == 0 {
        0
    } else {
        dec_value(ds.drop_last()) * 10 + ((ds.last() as u32 - 48) as nat)
    }
}

/// Every character of a number's decimal form is a digit.
pub proof fn lemma_dec_digits_are_digits(n: nat)
    ensures
        forall|t: int|
            0 <= t < dec_digits(n).len() ==> 48 <= (#[trigger] dec_digits(n)[t]) as u32 <= 57,
    decreases n,
{
    if n >= 10 {
        lemma_dec_digits_are_digits(n / 10);
        assert forall|t: int|
            0 <= t < dec_digits(n).len() implies 48 <= (#[trigger] dec_digits(n)[t]) as u32
            <= 57 by {
            if t < dec_digits(n / 10).len() {
                assert(dec_digits(n)[t] == dec_digits(n / 10)[t]);
            } else {
                assert(dec_digits(n)[t] == digit_char(n % 10));
            }
        }
    }
}

/// The decimal form of a number reads back to the number.
pub proof fn lemma_dec_value_of_dec_digits(n: nat)
    ensures
        dec_value(dec_digits(n)) == n,
    decreases n,
{
    if n < 10 {
        let ds = dec_digits(n);
        assert(ds.drop_last() =~= Seq::<char>::empty());
        assert(ds.last() == digit_char(n));
        assert(dec_value(ds.drop_last()) == 0);
        assert((digit_char(n) as u32 - 48) as nat == n);
    } else {
        lemma_dec_value_of_dec_digits(n / 10);
        let ds = dec_digits(n);
        assert(ds.drop_last() =~= dec_digits(n / 10));
        assert(ds.last() == digit_char(n % 10));
        assert(dec_value(ds) == dec_value(ds.drop_last()) * 10 + ((ds.last() as u32 - 48) as nat));
        assert((digit_char(n % 10) as u32 - 48) as nat == n % 10);
        assert(n == (n / 10) * 10 + n % 10);
    }
}

/// Entries of a split state read as the two parts' entries joined by a
/// comma.
proof fn lemma_entries_json_concat(a: StateModel, b: StateModel)
    requires
        a.len() > 0,
        b.len() > 0,
    ensures
        entries_json(a + b) == entries_json(a) + seq![','] + entries_json(b),
    decreases a.len(),
{
    let ab = a + b;
    assert(ab[0] == a[0]);
    if a.len() == 1 {
        assert(ab.drop_first() =~= b);
        assert(entries_json(ab) == entry_json(ab[0].0, ab[0].1) + seq![','] + entries_json(b));
    } else {
        assert(ab.drop_first() =~= a.drop_first() + b);
        lemma_entries_json_concat(a.drop_first(), b);
        assert(entry_json(a[0].0, a[0].1) + seq![','] + (entries_json(a.drop_first()) + seq![',']
            + entries_json(b)) =~= (entry_json(a[0].0, a[0].1) + seq![','] + entries_json(
            a.drop_first(),
        )) + seq![','] + entries_json(b));
    }
}

/// A longer digit run reads to no smaller value.
proof fn lemma_dec_value_concat_le(p: Seq<char>, q: Seq<char>)
    ensures
        dec_value(p) <= dec_value(p + q),
    decreases q.len(),
{
    if q.len() == 0 {
        assert(p + q =~= p);
    } else {
        lemma_dec_value_concat_le(p, q.drop_last());
        assert((p + q).drop_last() =~= p + q.drop_last());
        assert(dec_value(p + q) == dec_value(p + q.drop_last()) * 10 + (((p + q).last() as u32
            - 48) as nat));
        assert(dec_value(p + q.drop_last()) * 10 >= dec_value(p + q.drop_last()));
    }
}

/// Where one entry of a state stands in its snapshot text: which characters
/// are its quotes, its key, its colon, its digits, and what follows it.
proof fn lemma_canonical_entry_at(m: StateModel, c: int, s: Seq<char>)
    requires
        keys_quote_free(m),
        0 <= c < m.len(),
        s == json_of(m),
    ensures
        ({
            let k = m[c].0;
            let dd = dec_digits(m[c].1 as nat);
            let p = entry_pos(m, c);
            let e = p + 3 + k.len() + dd.len();
            &&& 18 <= p
            &&& e <= s.len() - 2
            &&& (c > 0 ==> s[p - 1] == ',')
            &&& s[p] == '"'
            &&& (forall|t: int| 0 <= t < k.len() ==> s[p + 1 + t] == k[t])
            &&& s[p + 1 + k.len()] == '"'
            &&& s[p + 2 + k.len()] == ':'
            &&& (forall|t: int| 0 <= t < dd.len() ==> s[p + 3 + k.len() + t] == dd[t])
            &&& (c < m.len() - 1 ==> s[e] == ',' && e + 1 == entry_pos(m, c + 1))
            &&& (c == m.len() - 1 ==> e == s.len() - 2)
            &&& s.len() >= 20
            &&& s[s.len() - 2] == '}'
            &&& s[s.len() - 1] == '}'
        }),
{
    reveal_strlit("{\"sent_releases\":{");
    reveal_strlit("}}");
    let h = "{\"sent_releases\":{"@;
    let t2 = "}}"@;
    let k = m[c].0;
    let id = m[c].1;
    let dd = dec_digits(id as nat);
    let b = entry_json(k, id);
    let p = entry_pos(m, c);
    let a = entries_json(m.take(c));
    let rest = entries_json(m.skip(c + 1));
    assert(dd.len() >= 1);
    assert(b.len() == 3 + k.len() + dd.len());
    // Split the entries' text around entry `c`.
    let mid = if c == 0 {
        Seq::<char>::empty()
    } else {
        a + seq![',']
    };
    let after = if c < m.len() - 1 {
        seq![','] + rest
    } else {
        Seq::<char>::empty()
    };
    assert(entries_json(m) == mid + b + after) by {
        assert(m.skip(c) =~= seq![m[c]] + m.skip(c + 1));
        assert(entries_json(seq![m[c]]) == b) by {
            assert(seq![m[c]][0] == m[c]);
        }
        if c < m.len() - 1 {
            assert(m.skip(c + 1).len() > 0);
            lemma_entries_json_concat(seq![m[c]], m.skip(c + 1));
            assert(entries_json(m.skip(c)) == b + seq![','] + rest);
        } else {
            assert(m.skip(c) =~= seq![m[c]]);
            assert(entries_json(m.skip(c)) == b);
        }
        if c > 0 {
            assert(m =~= m.take(c) + m.skip(c));
            lemma_entries_json_concat(m.take(c), m.skip(c));
            assert(entries_json(m) == a + seq![','] + entries_json(m.skip(c)));
            assert(a + seq![','] + (b + after) =~= (a + seq![','] + b) + after);
            assert((a + seq![',']) + b + after =~= (a + seq![','] + b) + after);
            assert(entries_json(m.skip(c)) =~= b + after) by {
                if c < m.len() - 1 {
                    assert(b + seq![','] + rest =~= b + (seq![','] + rest));
                } else {
                    assert(b + Seq::<char>::empty() =~= b);
                }
            }
            assert(a + seq![','] + (b + after) =~= mid + b + after);
        } else {
            assert(m.skip(c) =~= m);
            assert(entries_json(m.skip(c)) =~= b + after) by {
                if c < m.len() - 1 {
                    assert(b + seq![','] + rest =~= b + (seq![','] + rest));
                } else {
                    assert(b + Seq::<char>::empty() =~= b);
                }
            }
            assert(Seq::<char>::empty() + b + after =~= b + after);
        }
    }
    assert(p == 18 + mid.len());
    let e = p + 3 + k.len() + dd.len();
    assert(s.len() == 18 + mid.len() + b.len() + after.len() + 2);
    assert(s.len() >= 20);
    // Indices inside the entry.
    assert forall|t: int| 0 <= t < b.len() implies s[p + t] == b[t] by {
        assert(s[18 + mid.len() as int + t] == entries_json(m)[mid.len() as int + t]);
        assert(entries_json(m)[mid.len() as int + t] == b[t]);
    }
    assert(b[0] == '"');
    assert forall|t: int| 0 <= t < k.len() implies s[p + 1 + t] == k[t] by {
        assert(b[1 + t] == k[t]);
        assert(s[p + (1 + t)] == b[1 + t]);
    }
    assert(s[p + 1 + k.len()] == '"') by {
        assert(b[1 + k.len() as int] == (seq!['"'] + k + seq!['"', ':'])[1 + k.len() as int]);
        assert(b[1 + k.len() as int] == '"');
        assert(s[p + 1 + k.len()] == b[1 + k.len() as int]);
    }
    assert(s[p + 2 + k.len()] == ':') by {
        assert(b[2 + k.len() as int] == ':');
        assert(s[p + 2 + k.len()] == b[2 + k.len() as int]);
    }
    assert forall|t: int| 0 <= t < dd.len() implies s[p + 3 + k.len() + t] == dd[t] by {
        assert(b[3 + k.len() as int + t] == dd[t]);
        assert(s[p + 3 + k.len() + t] == b[3 + k.len() as int + t]);
    }
    if c > 0 {
        assert(s[p - 1] == ',') by {
            assert(s[18 + mid.len() as int - 1] == entries_json(m)[mid.len() as int - 1]);
            assert(mid[mid.len() as int - 1] == ',');
        }
    }
    if c < m.len() - 1 {
        assert(s[e] == ',') by {
            assert(s[18 + mid.len() as int + b.len() as int] == entries_json(m)[mid.len() as int + b.len() as int]);
            assert(entries_json(m)[mid.len() as int + b.len() as int] == after[0]);
        }
        assert(e + 1 == entry_pos(m, c + 1)) by {
            assert(m.take(c + 1) =~= m.take(c).push(m[c]));
            lemma_entries_json_push(m.take(c), m[c]);
            assert(entries_json(seq![m[c]]) == b) by {
                assert(seq![m[c]][0] == m[c]);
            }
            if c == 0 {
                assert(entries_json(m.take(1)) == b);
            } else {
                assert(entries_json(m.take(c + 1)) == a + seq![','] + b);
            }
        }
    }
    if c == m.len() - 1 {
        assert(after.len() == 0);
        assert(e == s.len() - 2);
    }
    assert(s[s.len() - 2] == '}') by {
        assert(s[18 + entries_json(m).len() as int + 0] == t2[0]);
    }
    assert(s[s.len() - 1] == '}') by {
        assert(s[18 + entries_json(m).len() as int + 1] == t2[1]);
    }
}

/// Two entries written to the same text, each followed by nothing or by a
/// comma, are the same entry followed by the same text.
proof fn lemma_entry_peel(
    s: Seq<char>,
    k1: Seq<char>,
    id1: u32,
    r1: Seq<char>,
    k2: Seq<char>,
    id2: u32,
    r2: Seq<char>,
)
    requires
        key_quote_free(k1),
        key_quote_free(k2),
        s == entry_json(k1, id1) + r1,
        s == entry_json(k2, id2) + r2,
        r1.len() == 0 || r1[0] == ',',
        r2.len() == 0 || r2[0] == ',',
    ensures
        k1 == k2,
        id1 == id2,
        r1 == r2,
{
    let d1 = dec_digits(id1 as nat);
    let d2 = dec_digits(id2 as nat);
    let e1 = entry_json(k1, id1);
    let e2 = entry_json(k2, id2);
    assert(d1.len() >= 1 && d2.len() >= 1);
    assert(e1.len() == 3 + k1.len() + d1.len());
    assert(e2.len() == 3 + k2.len() + d2.len());
    // The keys end at the first closing quote, which neither key contains.
    assert(k1.len() == k2.len()) by {
        if k1.len() < k2.len() {
            let q = 1 + k1.len() as int;
            assert(s[q] == e1[q] && e1[q] == '"');
            assert(s[q] == e2[q] && e2[q] == k2[q - 1]);
        } else if k2.len() < k1.len() {
            let q = 1 + k2.len() as int;
            assert(s[q] == e2[q] && e2[q] == '"');
            assert(s[q] == e1[q] && e1[q] == k1[q - 1]);
        }
    }
    assert(k1 =~= k2) by {
        assert forall|i: int| 0 <= i < k1.len() implies k1[i] == k2[i] by {
            assert(s[1 + i] == e1[1 + i] && e1[1 + i] == k1[i]);
            assert(s[1 + i] == e2[1 + i] && e2[1 + i] == k2[i]);
        }
    }
    // The digit runs end at the first character that is no digit: the
    // comma that follows, or the end of the text.
    let p = 3 + k1.len() as int;
    lemma_dec_digits_are_digits(id1 as nat);
    lemma_dec_digits_are_digits(id2 as nat);
    assert(d1.len() == d2.len()) by {
        if d1.len() < d2.len() {
            let q = p + d1.len() as int;
            assert(s[q] == r1[0]);
            assert(s[q] == e2[q] && e2[q] == d2[d1.len() as int]);
            assert(48 <= d2[d1.len() as int] as u32 <= 57);
            assert(r1.len() > 0) by {
                assert(s.len() == e1.len() + r1.len());
                assert(s.len() >= e2.len());
            }
            assert(r1[0] == ',');
            assert((',' as u32) == 44);
        } else if d2.len() < d1.len() {
            let q = p + d2.len() as int;
            assert(s[q] == r2[0]);
            assert(s[q] == e1[q] && e1[q] == d1[d2.len() as int]);
            assert(48 <= d1[d2.len() as int] as u32 <= 57);
            assert(r2.len() > 0) by {
                assert(s.len() == e2.len() + r2.len());
                assert(s.len() >= e1.len());
            }
            assert(r2[0] == ',');
            assert((',' as u32) == 44);
        }
    }
    assert(d1 =~= d2) by {
        assert forall|t: int| 0 <= t < d1.len() implies d1[t] == d2[t] by {
            assert(s[p + t] == e1[p + t] && e1[p + t] == d1[t]);
            assert(s[p + t] == e2[p + t] && e2[p + t] == d2[t]);
        }
    }
    assert(id1 == id2) by {
        lemma_dec_value_of_dec_digits(id1 as nat);
        lemma_dec_value_of_dec_digits(id2 as nat);
    }
    assert(r1 =~= r2) by {
        assert(e1.len() == e2.len());
        assert(s.len() == e1.len() + r1.len());
        assert(s.len() == e2.len() + r2.len());
        assert(r1.len() == r2.len());
        assert forall|t: int| 0 <= t < r1.len() implies r1[t] == r2[t] by {
            assert(s[e1.len() + t] == r1[t]);
            assert(s[e2.len() + t] == r2[t]);
        }
    }
}

/// Two states with quote-free keys whose entries read the same are the
/// same state.
proof fn lemma_entries_json_injective(m1: StateModel, m2: StateModel)
    requires
        keys_quote_free(m1),
        keys_quote_free(m2),
        entries_json(m1) == entries_json(m2),
    ensures
        m1 =~= m2,
    decreases m1.len(),
{
    let s = entries_json(m1);
    if m1.len() == 0 || m2.len() == 0 {
        assert(m1.len() == 0 && m2.len() == 0) by {
            if m1.len() > 0 {
                assert(dec_digits(m1[0].1 as nat).len() >= 1);
                assert(s.len() >= entry_json(m1[0].0, m1[0].1).len());
            }
            if m2.len() > 0 {
                assert(dec_digits(m2[0].1 as nat).len() >= 1);
                assert(entries_json(m2).len() >= entry_json(m2[0].0, m2[0].1).len());
            }
        }
        assert(m1 =~= m2);
    } else {
        let r1 = if m1.len() == 1 {
            Seq::<char>::empty()
        } else {
            seq![','] + entries_json(m1.drop_first())
        };
        let r2 = if m2.len() == 1 {
            Seq::<char>::empty()
        } else {
            seq![','] + entries_json(m2.drop_first())
        };
        assert(s == entry_json(m1[0].0, m1[0].1) + r1) by {
            if m1.len() == 1 {
                assert(entry_json(m1[0].0, m1[0].1) + Seq::<char>::empty() =~= entry_json(
                    m1[0].0,
                    m1[0].1,
                ));
            }
        }
        assert(s == entry_json(m2[0].0, m2[0].1) + r2) by {
            if m2.len() == 1 {
                assert(entry_json(m2[0].0, m2[0].1) + Seq::<char>::empty() =~= entry_json(
                    m2[0].0,
                    m2[0].1,
                ));
            }
        }
        assert(r1.len() == 0 || r1[0] == ',');
        assert(r2.len() == 0 || r2[0] == ',');
        assert(key_quote_free(m1[0].0) && key_quote_free(m2[0].0));
        lemma_entry_peel(s, m1[0].0, m1[0].1, r1, m2[0].0, m2[0].1, r2);
        if m1.len() == 1 {
            assert(m2.len() == 1) by {
                if m2.len() > 1 {
                    assert(r2.len() >= 1);
                }
            }
            assert(m1 =~= m2) by {
                assert(m1[0] == m2[0]);
            }
        } else {
            assert(m2.len() > 1) by {
                if m2.len() == 1 {
                    assert(r1.len() >= 1);
                }
            }
            assert(entries_json(m1.drop_first()) =~= entries_json(m2.drop_first())) by {
                assert(r1.drop_first() =~= entries_json(m1.drop_first()));
                assert(r2.drop_first() =~= entries_json(m2.drop_first()));
            }
            assert(keys_quote_free(m1.drop_first())) by {
                assert(forall|i: int|
                    0 <= i < m1.drop_first().len() ==> m1.drop_first()[i] == m1[i + 1]);
            }
            assert(keys_quote_free(m2.drop_first())) by {
                assert(forall|i: int|
                    0 <= i < m2.drop_first().len() ==> m2.drop_first()[i] == m2[i + 1]);
            }
            lemma_entries_json_injective(m1.drop_first(), m2.drop_first());
            assert(m1 =~= m2) by {
                assert(m1[0] == m2[0]);
                assert(forall|i: int| 1 <= i < m1.len() ==> m1[i] == m1.drop_first()[i - 1]);
                assert(forall|i: int| 1 <= i < m2.len() ==> m2[i] == m2.drop_first()[i - 1]);
            }
        }
    }
}

/// Round trip: the snapshot text determines the state. Two states with
/// quote-free keys — every state a snapshot is saved from or parsed to has
/// them — that share one snapshot text are the same state, so a parse of a
/// saved state yields that state back, and saving it again yields the same
/// text.
pub proof fn lemma_snapshot_round_trip(m1: StateModel, m2: StateModel)
    requires
        keys_quote_free(m1),
        keys_quote_free(m2),
        json_of(m1) == json_of(m2),
    ensures
        m1 =~= m2,
{
    let h = "{\"sent_releases\":{"@;
    let t = "}}"@;
    let s = json_of(m1);
    let e1 = entries_json(m1);
    let e2 = entries_json(m2);
    assert(e1.len() == e2.len()) by {
        assert(s.len() == h.len() + e1.len() + t.len());
        assert(json_of(m2).len() == h.len() + e2.len() + t.len());
    }
    assert(e1 =~= e2) by {
        assert forall|i: int| 0 <= i < e1.len() implies e1[i] == e2[i] by {
            assert(s[h.len() + i] == e1[i]);
            assert(json_of(m2)[h.len() + i] == e2[i]);
        }
    }
    lemma_entries_json_injective(m1, m2);
}

/// A state every key of which the snapshot carries verbatim has quote-free
/// keys in particular.
pub proof fn lemma_keys_ok_quote_free(m: StateModel)
    requires
        keys_ok(m),
    ensures
        keys_quote_free(m),
{
}
/// `s` is the snapshot text of the state `m`: keys distinct and quote-free,
/// text letter for letter.
pub open spec fn canonical_source(s: Seq<char>, m: StateModel) -> bool {
    keys_distinct(m) && keys_quote_free(m) && json_of(m) == s
}

/// Whether the character at `k` is a decimal digit.
fn digit_at(s: &str, k: usize) -> (b: bool)
    requires
        k < s@.len(),
    ensures
        b == (48 <= s@[k as int] as u32 <= 57),
{
    let u = s.get_char(k) as u32;
    48 <= u && u <= 57
}

/// What the parser's scan has established so far: the entries taken are the
/// first entries of the snapshot's state, and the position stands at the
/// next entry, at the comma before it, or past all entries.
spec fn parse_track(m0: StateModel, st: StateModel, i: int, n: int) -> bool {
    let c = st.len() as int;
    &&& st == m0.take(c)
    &&& {
        ||| (c < m0.len() && (i == entry_pos(m0, c) || (c > 0 && i == entry_pos(m0, c) - 1)))
        ||| (c == m0.len() as int && n - 2 <= i)
    }
}

/// Read a snapshot text back into a state. A successful parse re-serializes
/// to its input, letter for letter; and on the snapshot text of any state
/// with distinct, quote-free keys the parse succeeds, so a saved state
/// always loads back.
pub fn parse_state(s: &str) -> (r: Option<NotificationState>)
    ensures
        r matches Some(st) ==> st.wf() && keys_quote_free(st@) && json_of(st@) == s@,
        (exists|m: StateModel| canonical_source(s@, m)) ==> r is Some,
{
    let ghost hyp = exists|m: StateModel| canonical_source(s@, m);
    let ghost m0: StateModel = if hyp {
        choose|m: StateModel| canonical_source(s@, m)
    } else {
        Seq::<(Seq<char>, u32)>::empty()
    };
    let n = s.unicode_len();
    let mut st = NotificationState::new();
    proof {
        if hyp {
            reveal_strlit("{\"sent_releases\":{");
            reveal_strlit("}}");
            assert(s@.len() >= 20);
            assert(st@ =~= m0.take(0));
            if m0.len() > 0 {
                lemma_canonical_entry_at(m0, 0, s@);
            }
        }
    }
    let mut i: usize = if n < 18 {
        n
    } else {
        18
    };
    while i < n
        invariant
            n == s@.len(),
            i <= n,
            st.wf(),
            keys_quote_free(st@),
            hyp == exists|m: StateModel| canonical_source(s@, m),
            hyp ==> canonical_source(s@, m0),
            hyp ==> parse_track(m0, st@, i as int, n as int),
        decreases n - i,
    {
        let ghost cnt = st@.len() as int;
        proof {
            if hyp && cnt < m0.len() {
                lemma_canonical_entry_at(m0, cnt, s@);
            }
        }
        let c = s.get_char(i);
        if c == '"' {
            proof {
                // Under the canonical hypothesis a quote can open only an
                // entry: the comma before one and the closing braces are no
                // quotes.
                if hyp {
                    if cnt < m0.len() {
                        assert(i == entry_pos(m0, cnt));
                    } else {
                        reveal_strlit("{\"sent_releases\":{");
                        reveal_strlit("}}");
                        assert(s@.len() == 18 + entries_json(m0).len() + 2);
                        assert(s@[s@.len() - 2] == '}') by {
                            assert(s@[18 + entries_json(m0).len() as int + 0] == "}}"@[0]);
                        }
                        assert(s@[s@.len() - 1] == '}') by {
                            assert(s@[18 + entries_json(m0).len() as int + 1] == "}}"@[1]);
                        }
                        assert(s@[i as int] == '}');
                        assert(false);
                    }
                }
            }
            let ghost kk = if hyp && cnt < m0.len() {
                m0[cnt].0
            } else {
                Seq::<char>::empty()
            };
            let ghost dd = if hyp && cnt < m0.len() {
                dec_digits(m0[cnt].1 as nat)
            } else {
                Seq::<char>::empty()
            };
            let mut j = i + 1;
            while j < n && s.get_char(j) != '"'
                invariant
                    n == s@.len(),
                    i + 1 <= j <= n,
                    forall|t: int| i + 1 <= t < j ==> s@[t] != '"',
                decreases n - j,
            {
                j = j + 1;
            }
            proof {
                // The scan stops exactly at the key's closing quote: the key
                // holds none, and one follows it.
                if hyp {
                    assert(s@[i + 1 + kk.len()] == '"');
                    assert(j == i + 1 + kk.len()) by {
                        if j > i + 1 + kk.len() {
                            assert(s@[i + 1 + kk.len() as int] != '"');
                        } else if j < i + 1 + kk.len() {
                            assert(j < n && s@[j as int] == '"');
                            assert(s@[j as int] == kk[j - i - 1]);
                            assert(key_quote_free(kk));
                        }
                    }
                }
            }
            if j >= n {
                return None;
            }
            let key = s.substring_char(i + 1, j).to_owned();
            proof {
                assert(key_quote_free(key@)) by {
                    assert(forall|t: int|
                        0 <= t < key@.len() ==> key@[t] == s@[i + 1 + t] && s@[i + 1 + t] != '"');
                }
                if hyp {
                    assert(key@ =~= kk) by {
                        assert(forall|t: int| 0 <= t < kk.len() ==> s@[i + 1 + t] == kk[t]);
                    }
                }
            }
            if j + 1 >= n {
                proof {
                    if hyp {
                        assert(j + 1 == entry_pos(m0, cnt) + 2 + kk.len());
                    }
                }
                return None;
            }
            if s.get_char(j + 1) != ':' {
                proof {
                    if hyp {
                        assert(s@[entry_pos(m0, cnt) + 2 + kk.len()] == ':');
                    }
                }
                return None;
            }
            let mut v: u32 = 0;
            let mut k = j + 2;
            while k < n && digit_at(s, k)
                invariant
                    n == s@.len(),
                    j + 2 <= k <= n,
                    hyp == exists|m: StateModel| canonical_source(s@, m),
                    hyp ==> canonical_source(s@, m0),
                    hyp ==> st@ == m0.take(cnt) && cnt == st@.len() && cnt < m0.len(),
                    hyp ==> kk == m0[cnt].0 && dd == dec_digits(m0[cnt].1 as nat),
                    hyp ==> i == entry_pos(m0, cnt) && j == i + 1 + kk.len(),
                    hyp ==> j + 2 + dd.len() <= n - 2,
                    hyp ==> (forall|t: int| 0 <= t < dd.len() ==> s@[j + 2 + t] == dd[t]),
                    hyp ==> (j + 2 + dd.len() < n ==> (s@[j + 2 + dd.len()] == ','
                        || s@[j + 2 + dd.len()] == '}')),
                    hyp ==> k <= j + 2 + dd.len(),
                    hyp ==> v as nat == dec_value(s@.subrange(j + 2, k as int)),
                decreases n - k,
            {
                let d = s.get_char(k) as u32 - 48;
                proof {
                    if hyp {
                        // Still inside the entry's digits: the character
                        // after them is no digit.
                        assert(k < j + 2 + dd.len()) by {
                            if k == j + 2 + dd.len() {
                                assert(s@[k as int] == ',' || s@[k as int] == '}');
                                assert(48 <= s@[k as int] as u32 <= 57);
                            }
                        }
                        lemma_dec_digits_are_digits(m0[cnt].1 as nat);
                        let run = s@.subrange(j + 2, k as int);
                        let run1 = s@.subrange(j + 2, k + 1);
                        assert(run1 =~= run.push(s@[k as int]));
                        assert(run1.drop_last() =~= run);
                        assert(dec_value(run1) == dec_value(run) * 10 + ((s@[k as int] as u32
                            - 48) as nat));
                        // The run so far is a prefix of the entry's digits,
                        // so its value cannot pass the entry's id.
                        assert(run1 =~= dd.take(k + 1 - (j + 2))) by {
                            assert(forall|t: int| 0 <= t < run1.len() ==> run1[t] == s@[j + 2 + t]
                                && s@[j + 2 + t] == dd[t]);
                        }
                        assert(dd =~= dd.take(k + 1 - (j + 2)) + dd.skip(k + 1 - (j + 2)));
                        lemma_dec_value_concat_le(dd.take(k + 1 - (j + 2)), dd.skip(k + 1 - (j + 2)));
                        lemma_dec_value_of_dec_digits(m0[cnt].1 as nat);
                        assert(dec_value(run1) <= m0[cnt].1 as nat);
                    }
                }
                if v > (u32::MAX - d) / 10 {
                    proof {
                        if hyp {
                            assert(v * 10 + d > u32::MAX) by (nonlinear_arith)
                                requires
                                    v > (u32::MAX - d) / 10,
                                    d < 10,
                            ;
                        }
                    }
                    return None;
                }
                proof {
                    assert(v * 10 + d <= u32::MAX) by (nonlinear_arith)
                        requires
                            v <= (u32::MAX - d) / 10,
                            d < 10,
                    ;
                }
                v = v * 10 + d;
                k = k + 1;
            }
            proof {
                if hyp {
                    lemma_dec_digits_are_digits(m0[cnt].1 as nat);
                    assert(dd.len() >= 1);
                    // The scan cannot stop inside the digits, so it consumed
                    // them all, and their value is the entry's id.
                    assert(k == j + 2 + dd.len()) by {
                        if k < j + 2 + dd.len() {
                            assert(s@[k as int] == dd[k - (j + 2)]);
                            assert(48 <= s@[k as int] as u32 <= 57);
                            assert(k < n);
                        }
                    }
                    assert(s@.subrange(j + 2, k as int) =~= dd) by {
                        assert(forall|t: int|
                            0 <= t < dd.len() ==> s@.subrange(j + 2, k as int)[t] == s@[j + 2 + t]
                                && s@[j + 2 + t] == dd[t]);
                    }
                    lemma_dec_value_of_dec_digits(m0[cnt].1 as nat);
                    assert(v == m0[cnt].1);
                }
            }
            if k == j + 2 {
                return None;
            }
            let ghost mpre = st@;
            st.record(&key, v);
            proof {
                assert(keys_quote_free(st@)) by {
                    assert forall|t: int| 0 <= t < st@.len() implies key_quote_free(
                        (#[trigger] st@[t]).0,
                    ) by {
                        if crate::state::has_key(mpre, key@) {
                            assert(st@[t].0 == key@ || st@[t].0 == mpre[t].0);
                        } else {
                            if t < mpre.len() {
                                assert(st@[t] == mpre[t]);
                            } else {
                                assert(st@[t].0 == key@);
                            }
                        }
                    }
                }
                if hyp {
                    // The key is new to the state: the snapshot's keys are
                    // distinct, so recording appends.
                    assert(!crate::state::has_key(mpre, key@)) by {
                        if crate::state::has_key(mpre, key@) {
                            let t = choose|t: int|
                                0 <= t < mpre.len() && (#[trigger] mpre[t]).0 == key@;
                            assert(mpre[t] == m0[t]);
                            assert(m0[t].0 != m0[cnt].0);
                        }
                    }
                    assert(st@ =~= m0.take(cnt + 1)) by {
                        assert(st@ =~= mpre.push((key@, v)));
                        assert(forall|t: int| 0 <= t < cnt ==> m0.take(cnt + 1)[t] == m0.take(cnt)[t]);
                        assert(m0.take(cnt + 1)[cnt] == (m0[cnt].0, m0[cnt].1));
                    }
                    assert(st@.len() == cnt + 1);
                    if cnt < m0.len() - 1 {
                        assert(k == entry_pos(m0, cnt + 1) - 1);
                    } else {
                        assert(k == n - 2);
                        assert(m0.take(cnt + 1) =~= m0);
                    }
                }
            }
            i = k;
        } else {
            proof {
                if hyp {
                    if cnt < m0.len() {
                        // Not at an entry's opening quote, so at the comma
                        // just before it.
                        assert(i != entry_pos(m0, cnt));
                    }
                }
            }
            i = i + 1;
        }
    }
    let out = save_state(&st);
    let own = s.to_owned();
    proof {
        if hyp {
            // Every entry was taken: any earlier stop would stand before
            // the closing braces.
            let cnt = st@.len() as int;
            if cnt < m0.len() {
                lemma_canonical_entry_at(m0, cnt, s@);
                assert(entry_pos(m0, cnt) < n - 2);
            }
            assert(st@ =~= m0.take(m0.len() as int));
            assert(m0.take(m0.len() as int) =~= m0);
            assert(out@ == s@);
        }
    }
    if out == own {
        Some(st)
    } else {
        None
    }
}

/// Read a snapshot where one may be absent: an absent snapshot is no
/// error and yields the empty state; present but unreadable content yields
/// nothing, which the caller treats as fatal.
pub fn load_state(contents: Option<&str>) -> (r: Option<NotificationState>)
    ensures
        match contents {
            None => r matches Some(st) && st@ =~= Seq::<(Seq<char>, u32)>::empty() && st.wf(),
            Some(s) => (r matches Some(st) ==> st.wf() && keys_quote_free(st@) && json_of(st@)
                == s@) && ((exists|m: StateModel| canonical_source(s@, m)) ==> r is Some),
        },
{
    match contents {
        None => Some(NotificationState::new()),
        Some(s) => parse_state(s),
    }
}

} // verus!
