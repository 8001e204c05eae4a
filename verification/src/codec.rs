//! The textual serialization of a store, with a proved round trip.
//!
//! A store is written as a bracketed list of two-field records,
//! `[(id:"doc",file:"/tmp/a.txt"),(id:"notes",file:"/tmp/n")]`, the empty
//! store as `[]`. Inside the quotes, `"` and `\` are escaped with a
//! backslash; every other character stands for itself, so ids and paths may
//! hold spaces and any Unicode text. The format is deterministic: equal
//! stores serialize to equal text, and parsing what was serialized gives
//! the store back (`lemma_round_trip`).

use vstd::prelude::*;
use vstd::string::{StrSliceExecFns, StringExecFns};
use crate::store::{Store, Item, ItemV};

verus! {

/// The characters of `s`, in order, as a vector.
fn str_to_chars(s: &str) -> (v: Vec<char>)
    ensures
        v@ == s@,
{
    let n = s.unicode_len();
    let mut v: Vec<char> = Vec::new();
    let mut i: usize = 0;
    while i < n
        invariant
            n == s@.len(),
            i <= n,
            v@ == s@.take(i as int),
        decreases n - i,
    {
        let c = s.get_char(i);
        v.push(c);
        proof {
            assert(v@ =~= s@.take(i as int + 1));
        }
        i += 1;
    }
    proof {
        assert(s@.take(n as int) =~= s@);
    }
    v
}

/// Relies on String's FromIterator impl over chars: the collected string
/// holds exactly the given characters, in order.
#[verifier::external_body]
fn chars_to_string(v: Vec<char>) -> (r: String)
    ensures
        r@ == v@,
{
    String::from_iter(v)
}

/// The characters that stand for `c` inside a quoted string.
pub open spec fn esc_char(c: char) -> Seq<char> {
    if c == '"' || c == '\\' {
        seq!['\\', c]
    } else {
        seq![c]
    }
}

/// The characters that stand for the text `s` inside a quoted string.
pub open spec fn esc(s: Seq<char>) -> Seq<char>
    decreases s.len(),
{
    if s.len() == 0 {
        Seq::empty()
    } else {
        esc_char(s[0]) + esc(s.drop_first())
    }
}

/// The record opener, up to and including the quote that opens the id.
pub open spec fn lit_open() -> Seq<char> {
    seq!['(', 'i', 'd', ':', '"']
}

/// The text between the id's closing quote and the path's opening quote.
pub open spec fn lit_mid() -> Seq<char> {
    seq![',', 'f', 'i', 'l', 'e', ':', '"']
}

/// The record closer, after the path's closing quote.
pub open spec fn lit_end() -> Seq<char> {
    seq![')']
}

/// The serialization of one record.
pub open spec fn enc_item(it: ItemV) -> Seq<char> {
    lit_open() + esc(it.id) + seq!['"'] + lit_mid() + esc(it.file) + seq!['"'] + lit_end()
}

/// The serialization of one or more records, separated by commas.
pub open spec fn enc_items(s: Seq<ItemV>) -> Seq<char>
    decreases s.len(),
{
    if s.len() == 0 {
        Seq::empty()
    } else if s.len() == 1 {
        enc_item(s[0])
    } else {
        enc_item(s[0]) + seq![','] + enc_items(s.drop_first())
    }
}

/// The serialization of a store: its records between square brackets.
pub open spec fn enc_store(s: Seq<ItemV>) -> Seq<char> {
    seq!['['] + enc_items(s) + seq![']']
}

/// Consume the exact prefix `p` of `s`, or fail.
pub open spec fn expect(s: Seq<char>, p: Seq<char>) -> Option<Seq<char>> {
    if p.is_prefix_of(s) {
        Some(s.skip(p.len() as int))
    } else {
        None
    }
}

/// Parse a quoted string's body, the opening quote already consumed:
/// the unescaped content, and what follows the closing quote.
pub open spec fn sp_str(s: Seq<char>) -> Option<(Seq<char>, Seq<char>)>
    decreases s.len(),
{
    if s.len() == 0 {
        None
    } else if s[0] == '"' {
        Some((Seq::empty(), s.drop_first()))
    } else if s[0] == '\\' {
        if s.len() >= 2 && (s[1] == '"' || s[1] == '\\') {
            match sp_str(s.skip(2)) {
                None => None,
                Some((c, rest)) => Some((seq![s[1]] + c, rest)),
            }
        } else {
            None
        }
    } else {
        match sp_str(s.drop_first()) {
            None => None,
            Some((c, rest)) => Some((seq![s[0]] + c, rest)),
        }
    }
}

/// Parsing a quoted string consumes at least its closing quote.
pub proof fn lemma_sp_str_len(s: Seq<char>)
    ensures
        sp_str(s) matches Some((c, rest)) ==> rest.len() < s.len(),
    decreases s.len(),
{
    if s.len() > 0 && s[0] != '"' {
        if s[0] == '\\' {
            if s.len() >= 2 && (s[1] == '"' || s[1] == '\\') {
                lemma_sp_str_len(s.skip(2));
            }
        } else {
            lemma_sp_str_len(s.drop_first());
        }
    }
}

/// Parse one record: the record, and what follows it.
pub open spec fn sp_item(s: Seq<char>) -> Option<(ItemV, Seq<char>)> {
    match expect(s, lit_open()) {
        None => None,
        Some(s1) => match sp_str(s1) {
            None => None,
            Some((id, s2)) => match expect(s2, lit_mid()) {
                None => None,
                Some(s3) => match sp_str(s3) {
                    None => None,
                    Some((file, s4)) => match expect(s4, lit_end()) {
                        None => None,
                        Some(s5) => Some((ItemV { id, file }, s5)),
                    },
                },
            },
        },
    }
}

/// Parsing a record consumes at least one character.
pub proof fn lemma_sp_item_len(s: Seq<char>)
    ensures
        sp_item(s) matches Some((it, rest)) ==> rest.len() < s.len(),
{
    if let Some(s1) = expect(s, lit_open()) {
        lemma_sp_str_len(s1);
        if let Some((id, s2)) = sp_str(s1) {
            if let Some(s3) = expect(s2, lit_mid()) {
                lemma_sp_str_len(s3);
            }
        }
    }
}

/// Parse one or more comma-separated records: the records, and what
/// follows the last of them.
pub open spec fn sp_items(s: Seq<char>) -> Option<(Seq<ItemV>, Seq<char>)>
    decreases s.len(),
    via sp_items_dec
{
    match sp_item(s) {
        None => None,
        Some((it, rest)) => if rest.len() > 0 && rest[0] == ',' {
            match sp_items(rest.drop_first()) {
                None => None,
                Some((its, rest2)) => Some((seq![it] + its, rest2)),
            }
        } else {
            Some((seq![it], rest))
        },
    }
}

#[via_fn]
proof fn sp_items_dec(s: Seq<char>) {
    lemma_sp_item_len(s);
}

/// Parse a store: the whole of `s` must be a bracketed record list.
pub open spec fn sp_store(s: Seq<char>) -> Option<Seq<ItemV>> {
    match expect(s, seq!['[']) {
        None => None,
        Some(s1) => if s1 == seq![']'] {
            Some(Seq::empty())
        } else {
            match sp_items(s1) {
                None => None,
                Some((its, rest)) => if rest == seq![']'] {
                    Some(its)
                } else {
                    None
                },
            }
        },
    }
}

/// A failure to parse a store's text.
#[derive(Debug)]
pub struct ParseError {
    /// The character position at which parsing stopped.
    pub at: usize,
}

impl ParseError {
    /// The human-readable rendering of the error.
    pub fn message(&self) -> (r: String)
        ensures
            r@ == "the backing file does not hold a valid store"@,
    {
        String::from_str("the backing file does not hold a valid store")
    }
}

/// `r` with `pre` prepended to its parsed content.
spec fn prepend_str(pre: Seq<char>, r: Option<(Seq<char>, Seq<char>)>) -> Option<
    (Seq<char>, Seq<char>),
> {
    match r {
        None => None,
        Some((c, rest)) => Some((pre + c, rest)),
    }
}

/// Prepending twice is prepending the concatenation.
proof fn lemma_prepend_str_assoc(a: Seq<char>, b: Seq<char>, r: Option<(Seq<char>, Seq<char>)>)
    ensures
        prepend_str(a + b, r) == prepend_str(a, prepend_str(b, r)),
{
    if let Some((c, rest)) = r {
        assert((a + b) + c =~= a + (b + c));
    }
}

/// `r` with `pre` prepended to its parsed records.
spec fn prepend_items(pre: Seq<ItemV>, r: Option<(Seq<ItemV>, Seq<char>)>) -> Option<
    (Seq<ItemV>, Seq<char>),
> {
    match r {
        None => None,
        Some((its, rest)) => Some((pre + its, rest)),
    }
}

/// Prepending twice is prepending the concatenation.
proof fn lemma_prepend_items_assoc(
    a: Seq<ItemV>,
    b: Seq<ItemV>,
    r: Option<(Seq<ItemV>, Seq<char>)>,
)
    ensures
        prepend_items(a + b, r) == prepend_items(a, prepend_items(b, r)),
{
    if let Some((its, rest)) = r {
        assert((a + b) + its =~= a + (b + its));
    }
}

/// Match the literal `lit` at position `i` of `v`.
fn p_lit(v: &Vec<char>, i: usize, lit: &Vec<char>) -> (r: Option<usize>)
    requires
        i <= v@.len(),
    ensures
        match r {
            Some(j) => expect(v@.skip(i as int), lit@) == Some(v@.skip(j as int)) && i <= j
                <= v@.len(),
            None => expect(v@.skip(i as int), lit@) is None,
        },
{
    if v.len() - i < lit.len() {
        proof {
            assert(v@.skip(i as int).len() < lit@.len());
        }
        return None;
    }
    let mut k: usize = 0;
    while k < lit.len()
        invariant
            v@.len() <= usize::MAX,
            i + lit@.len() <= v@.len(),
            k <= lit@.len(),
            forall|m: int| 0 <= m < k ==> v@[i + m] == lit@[m],
        decreases lit@.len() - k,
    {
        if v[i + k] != lit[k] {
            proof {
                let sk = v@.skip(i as int);
                if lit@.is_prefix_of(sk) {
                    assert(sk.subrange(0, lit@.len() as int)[k as int] == sk[k as int]);
                    assert(false);
                }
            }
            return None;
        }
        k += 1;
    }
    proof {
        let sk = v@.skip(i as int);
        assert(sk.subrange(0, lit@.len() as int) =~= lit@);
        assert(lit@.is_prefix_of(sk));
        assert(sk.skip(lit@.len() as int) =~= v@.skip(i as int + lit@.len()));
    }
    Some(i + lit.len())
}

/// The record opener, as a vector.
fn lit_open_vec() -> (r: Vec<char>)
    ensures
        r@ == lit_open(),
{
    let mut r: Vec<char> = Vec::new();
    r.push('(');
    r.push('i');
    r.push('d');
    r.push(':');
    r.push('"');
    proof {
        assert(r@ =~= lit_open());
    }
    r
}

/// The text between a record's two fields, as a vector.
fn lit_mid_vec() -> (r: Vec<char>)
    ensures
        r@ == lit_mid(),
{
    let mut r: Vec<char> = Vec::new();
    r.push(',');
    r.push('f');
    r.push('i');
    r.push('l');
    r.push('e');
    r.push(':');
    r.push('"');
    proof {
        assert(r@ =~= lit_mid());
    }
    r
}

/// Parse a quoted string's body at position `i`, the opening quote
/// already consumed.
fn p_str(v: &Vec<char>, i: usize) -> (r: Option<(Vec<char>, usize)>)
    requires
        i <= v@.len(),
    ensures
        match r {
            Some((content, j)) => sp_str(v@.skip(i as int)) == Some(
                (content@, v@.skip(j as int)),
            ) && i <= j <= v@.len(),
            None => sp_str(v@.skip(i as int)) is None,
        },
{
    let mut j: usize = i;
    let mut acc: Vec<char> = Vec::new();
    proof {
        assert(sp_str(v@.skip(i as int)) == prepend_str(acc@, sp_str(v@.skip(j as int))));
    }
    loop
        invariant
            i <= j <= v@.len(),
            sp_str(v@.skip(i as int)) == prepend_str(acc@, sp_str(v@.skip(j as int))),
        decreases v@.len() - j,
    {
        if j >= v.len() {
            proof {
                assert(v@.skip(j as int).len() == 0);
            }
            return None;
        }
        let c = v[j];
        proof {
            assert(v@.skip(j as int)[0] == c);
        }
        if c == '"' {
            proof {
                assert(v@.skip(j as int).drop_first() =~= v@.skip(j as int + 1));
                assert(sp_str(v@.skip(j as int)) == Some(
                    (Seq::<char>::empty(), v@.skip(j as int + 1)),
                ));
                assert(acc@ + Seq::<char>::empty() =~= acc@);
            }
            return Some((acc, j + 1));
        } else if c == '\\' {
            if j + 1 < v.len() {
                let c2 = v[j + 1];
                if c2 == '"' || c2 == '\\' {
                    proof {
                        assert(v@.skip(j as int)[1] == c2);
                        assert(v@.skip(j as int).len() >= 2);
                        assert(v@.skip(j as int).skip(2) =~= v@.skip(j as int + 2));
                        assert(sp_str(v@.skip(j as int)) == prepend_str(
                            seq![c2],
                            sp_str(v@.skip(j as int + 2)),
                        ));
                        lemma_prepend_str_assoc(acc@, seq![c2], sp_str(v@.skip(j as int + 2)));
                    }
                    let ghost a0 = acc@;
                    acc.push(c2);
                    proof {
                        assert(acc@ =~= a0 + seq![c2]);
                    }
                    j = j + 2;
                } else {
                    proof {
                        assert(sp_str(v@.skip(j as int)) is None);
                    }
                    return None;
                }
            } else {
                proof {
                    assert(v@.skip(j as int).len() < 2);
                }
                return None;
            }
        } else {
            proof {
                assert(v@.skip(j as int).drop_first() =~= v@.skip(j as int + 1));
                assert(sp_str(v@.skip(j as int)) == prepend_str(
                    seq![c],
                    sp_str(v@.skip(j as int + 1)),
                ));
                lemma_prepend_str_assoc(acc@, seq![c], sp_str(v@.skip(j as int + 1)));
            }
            let ghost a0 = acc@;
            acc.push(c);
            proof {
                assert(acc@ =~= a0 + seq![c]);
            }
            j = j + 1;
        }
    }
}

/// Parse one record at position `i`.
fn p_item(v: &Vec<char>, i: usize) -> (r: Option<(Item, usize)>)
    requires
        i <= v@.len(),
    ensures
        match r {
            Some((it, j)) => sp_item(v@.skip(i as int)) == Some((it@, v@.skip(j as int))) && i
                <= j <= v@.len(),
            None => sp_item(v@.skip(i as int)) is None,
        },
{
    let opener = lit_open_vec();
    let i1 = match p_lit(v, i, &opener) {
        Some(j) => j,
        None => {
            return None;
        },
    };
    let (idc, i2) = match p_str(v, i1) {
        Some(x) => x,
        None => {
            return None;
        },
    };
    let mid = lit_mid_vec();
    let i3 = match p_lit(v, i2, &mid) {
        Some(j) => j,
        None => {
            return None;
        },
    };
    let (filec, i4) = match p_str(v, i3) {
        Some(x) => x,
        None => {
            return None;
        },
    };
    if i4 < v.len() && v[i4] == ')' {
        proof {
            let sk = v@.skip(i4 as int);
            assert(sk[0] == ')');
            assert(sk.subrange(0, 1) =~= lit_end());
            assert(lit_end().is_prefix_of(sk));
            assert(sk.skip(1) =~= v@.skip(i4 as int + 1));
            assert(expect(sk, lit_end()) == Some(v@.skip(i4 as int + 1)));
        }
        let it = Item { id: chars_to_string(idc), file: chars_to_string(filec) };
        Some((it, i4 + 1))
    } else {
        proof {
            let sk = v@.skip(i4 as int);
            if lit_end().is_prefix_of(sk) {
                assert(sk.subrange(0, 1)[0] == sk[0]);
                assert(false);
            }
        }
        None
    }
}

/// Parse one or more comma-separated records at position `i`.
fn p_items(v: &Vec<char>, i: usize) -> (r: Option<(Vec<Item>, usize)>)
    requires
        i <= v@.len(),
    ensures
        match r {
            Some((items, j)) => sp_items(v@.skip(i as int)) == Some(
                (items.deep_view(), v@.skip(j as int)),
            ) && i <= j <= v@.len(),
            None => sp_items(v@.skip(i as int)) is None,
        },
{
    let mut acc: Vec<Item> = Vec::new();
    let mut cur: usize = i;
    proof {
        assert(acc.deep_view() =~= Seq::<ItemV>::empty());
        assert(sp_items(v@.skip(i as int)) == prepend_items(
            acc.deep_view(),
            sp_items(v@.skip(cur as int)),
        ));
    }
    loop
        invariant
            i <= cur <= v@.len(),
            sp_items(v@.skip(i as int)) == prepend_items(
                acc.deep_view(),
                sp_items(v@.skip(cur as int)),
            ),
        decreases v@.len() - cur,
    {
        let (it, j) = match p_item(v, cur) {
            Some(x) => x,
            None => {
                return None;
            },
        };
        let ghost a0 = acc.deep_view();
        let ghost itv = it@;
        acc.push(it);
        proof {
            assert(acc.deep_view() =~= a0 + seq![itv]);
        }
        if j < v.len() && v[j] == ',' {
            proof {
                let sk = v@.skip(j as int);
                assert(sk[0] == ',');
                assert(sk.len() > 0);
                assert(sk.drop_first() =~= v@.skip(j as int + 1));
                assert(sp_items(v@.skip(cur as int)) == prepend_items(
                    seq![itv],
                    sp_items(v@.skip(j as int + 1)),
                ));
                lemma_prepend_items_assoc(a0, seq![itv], sp_items(v@.skip(j as int + 1)));
            }
            cur = j + 1;
        } else {
            proof {
                let sk = v@.skip(j as int);
                assert(!(sk.len() > 0 && sk[0] == ','));
                assert(sp_items(v@.skip(cur as int)) == Some((seq![itv], sk)));
                assert(a0 + seq![itv] =~= acc.deep_view());
            }
            return Some((acc, j));
        }
    }
}

/// Parse a store from its serialized text: the whole of `s` must be a
/// bracketed record list. Succeeds exactly on the texts the grammar
/// admits.
pub fn from_text(s: &str) -> (r: Result<Store, ParseError>)
    ensures
        match r {
            Ok(st) => sp_store(s@) == Some(st@),
            Err(_) => sp_store(s@) is None,
        },
{
    let v = str_to_chars(s);
    if v.len() == 0 || v[0] != '[' {
        proof {
            if (seq!['[']).is_prefix_of(v@) {
                assert(v@.subrange(0, 1)[0] == v@[0]);
                assert(false);
            }
        }
        return Err(ParseError { at: 0 });
    }
    proof {
        assert(v@.subrange(0, 1) =~= seq!['[']);
        assert((seq!['[']).is_prefix_of(v@));
        assert(expect(v@, seq!['[']) == Some(v@.skip(1)));
    }
    if v.len() == 2 && v[1] == ']' {
        let st = Store { items: Vec::new() };
        proof {
            assert(v@.skip(1) =~= seq![']']);
            assert(st@ =~= Seq::<ItemV>::empty());
        }
        return Ok(st);
    }
    proof {
        if v@.skip(1) == seq![']'] {
            assert(v@.skip(1).len() == 1);
            assert(v@.skip(1)[0] == ']');
            assert(v@[1] == ']');
            assert(false);
        }
    }
    match p_items(&v, 1) {
        None => Err(ParseError { at: 1 }),
        Some((items, j)) => {
            if j == v.len() - 1 && v[j] == ']' {
                let st = Store { items };
                proof {
                    assert(v@.skip(j as int) =~= seq![']']);
                }
                Ok(st)
            } else {
                proof {
                    if v@.skip(j as int) == seq![']'] {
                        assert(v@.skip(j as int).len() == 1);
                        assert(v@.skip(j as int)[0] == ']');
                        assert(false);
                    }
                }
                Err(ParseError { at: j })
            }
        },
    }
}

/// Consuming an exact prefix succeeds and leaves the rest.
proof fn lemma_expect_rt(p: Seq<char>, rest: Seq<char>)
    ensures
        expect(p + rest, p) == Some(rest),
{
    assert((p + rest).subrange(0, p.len() as int) =~= p);
    assert(p.is_prefix_of(p + rest));
    assert((p + rest).skip(p.len() as int) =~= rest);
}

/// Parsing an escaped text followed by a closing quote gives the text back
/// and leaves what follows the quote.
proof fn lemma_sp_str_rt(id: Seq<char>, rest: Seq<char>)
    ensures
        sp_str(esc(id) + seq!['"'] + rest) == Some((id, rest)),
    decreases id.len(),
{
    let s = esc(id) + seq!['"'] + rest;
    if id.len() == 0 {
        assert(s =~= seq!['"'] + rest);
        assert(s[0] == '"');
        assert(s.drop_first() =~= rest);
        assert(Seq::<char>::empty() =~= id);
    } else {
        let c = id[0];
        let tail = id.drop_first();
        lemma_sp_str_rt(tail, rest);
        if c == '"' || c == '\\' {
            assert(s[0] == '\\');
            assert(s[1] == c);
            assert(s.skip(2) =~= esc(tail) + seq!['"'] + rest);
            assert(seq![s[1]] + tail =~= id);
        } else {
            assert(s[0] == c);
            assert(s[0] != '"' && s[0] != '\\');
            assert(s.drop_first() =~= esc(tail) + seq!['"'] + rest);
            assert(seq![s[0]] + tail =~= id);
        }
    }
}

/// Parsing a serialized record gives the record back and leaves what
/// follows it.
proof fn lemma_sp_item_rt(it: ItemV, rest: Seq<char>)
    ensures
        sp_item(enc_item(it) + rest) == Some((it, rest)),
{
    let s = enc_item(it) + rest;
    let r1 = esc(it.id) + seq!['"'] + (lit_mid() + (esc(it.file) + seq!['"'] + (lit_end()
        + rest)));
    assert(s =~= lit_open() + r1);
    lemma_expect_rt(lit_open(), r1);
    assert(expect(s, lit_open()) == Some(r1));
    let r2 = lit_mid() + (esc(it.file) + seq!['"'] + (lit_end() + rest));
    lemma_sp_str_rt(it.id, r2);
    let r3 = esc(it.file) + seq!['"'] + (lit_end() + rest);
    lemma_expect_rt(lit_mid(), r3);
    lemma_sp_str_rt(it.file, lit_end() + rest);
    lemma_expect_rt(lit_end(), rest);
    assert(ItemV { id: it.id, file: it.file } == it);
}

/// Parsing serialized records followed by anything but a comma gives the
/// records back and leaves what follows them.
#[verifier::rlimit(50)]
proof fn lemma_sp_items_rt(items: Seq<ItemV>, rest: Seq<char>)
    requires
        items.len() >= 1,
        rest.len() == 0 || rest[0] != ',',
    ensures
        sp_items(enc_items(items) + rest) == Some((items, rest)),
    decreases items.len(),
{
    let s = enc_items(items) + rest;
    if items.len() == 1 {
        lemma_sp_item_rt(items[0], rest);
        assert(sp_item(s) == Some((items[0], rest)));
        assert(seq![items[0]] =~= items);
    } else {
        let tail = items.drop_first();
        let r1 = seq![','] + (enc_items(tail) + rest);
        assert(s =~= enc_item(items[0]) + r1);
        lemma_sp_item_rt(items[0], r1);
        assert(sp_item(s) == Some((items[0], r1)));
        assert(r1[0] == ',');
        assert(r1.drop_first() =~= enc_items(tail) + rest);
        lemma_sp_items_rt(tail, rest);
        assert(seq![items[0]] + tail =~= items);
    }
}

/// A serialized record is never empty.
proof fn lemma_enc_items_nonempty(items: Seq<ItemV>)
    requires
        items.len() >= 1,
    ensures
        enc_items(items).len() >= 1,
{
}

/// Escaping distributes over appending one character.
proof fn lemma_esc_push(a: Seq<char>, c: char)
    ensures
        esc(a.push(c)) == esc(a) + esc_char(c),
    decreases a.len(),
{
    if a.len() == 0 {
        assert(a.push(c)[0] == c);
        assert(esc(Seq::<char>::empty()) == Seq::<char>::empty());
        assert(a.push(c).drop_first() =~= Seq::<char>::empty());
        assert(esc(a) + esc_char(c) =~= esc_char(c));
        assert(esc(a.push(c)) =~= esc_char(c));
    } else {
        lemma_esc_push(a.drop_first(), c);
        assert(a.push(c).drop_first() =~= a.drop_first().push(c));
        assert(esc_char(a[0]) + (esc(a.drop_first()) + esc_char(c)) =~= (esc_char(a[0])
            + esc(a.drop_first())) + esc_char(c));
    }
}

/// Append the escaped form of `s` to `out`.
fn push_esc(out: &mut Vec<char>, s: &str)
    ensures
        final(out)@ == old(out)@ + esc(s@),
{
    let n = s.unicode_len();
    proof {
        assert(out@ =~= old(out)@ + esc(s@.take(0)));
    }
    let mut i: usize = 0;
    while i < n
        invariant
            n == s@.len(),
            i <= n,
            out@ == old(out)@ + esc(s@.take(i as int)),
        decreases n - i,
    {
        let c = s.get_char(i);
        proof {
            assert(s@.take(i as int).push(c) =~= s@.take(i as int + 1));
            lemma_esc_push(s@.take(i as int), c);
        }
        let ghost before = out@;
        if c == '"' || c == '\\' {
            out.push('\\');
            out.push(c);
            proof {
                assert(out@ =~= before + esc_char(c));
            }
        } else {
            out.push(c);
            proof {
                assert(out@ =~= before + esc_char(c));
            }
        }
        proof {
            assert((old(out)@ + esc(s@.take(i as int))) + esc_char(c) =~= old(out)@ + esc(
                s@.take(i as int + 1),
            ));
        }
        i += 1;
    }
    proof {
        assert(s@.take(n as int) =~= s@);
    }
}

/// Append the serialization of one record to `out`.
fn push_item(out: &mut Vec<char>, it: &Item)
    ensures
        final(out)@ == old(out)@ + enc_item(it@),
{
    out.push('(');
    out.push('i');
    out.push('d');
    out.push(':');
    out.push('"');
    push_esc(out, it.id.as_str());
    out.push('"');
    out.push(',');
    out.push('f');
    out.push('i');
    out.push('l');
    out.push('e');
    out.push(':');
    out.push('"');
    push_esc(out, it.file.as_str());
    out.push('"');
    out.push(')');
    proof {
        assert(out@ =~= old(out)@ + enc_item(it@));
    }
}

/// Serializing after appending one record appends its serialization, with
/// a separating comma when records came before it.
proof fn lemma_enc_items_push(s: Seq<ItemV>, x: ItemV)
    ensures
        enc_items(s.push(x)) == if s.len() == 0 {
            enc_item(x)
        } else {
            enc_items(s) + seq![','] + enc_item(x)
        },
    decreases s.len(),
{
    let p = s.push(x);
    if s.len() == 0 {
        assert(p.len() == 1);
        assert(p[0] == x);
        assert(enc_items(p) =~= enc_item(x));
    } else {
        lemma_enc_items_push(s.drop_first(), x);
        assert(p.drop_first() =~= s.drop_first().push(x));
        assert(p[0] == s[0]);
        if s.len() == 1 {
            assert(s.drop_first().len() == 0);
            assert(enc_items(p) == enc_item(s[0]) + seq![','] + enc_items(p.drop_first()));
            assert(enc_items(p.drop_first()) == enc_item(x));
            assert(enc_items(s) == enc_item(s[0]));
        } else {
            assert(enc_items(p) == enc_item(s[0]) + seq![','] + (enc_items(s.drop_first())
                + seq![','] + enc_item(x)));
            assert(enc_item(s[0]) + seq![','] + (enc_items(s.drop_first()) + seq![',']
                + enc_item(x)) =~= (enc_item(s[0]) + seq![','] + enc_items(s.drop_first()))
                + seq![','] + enc_item(x));
        }
    }
}

/// Serialize a store: its records between square brackets, separated by
/// commas, ids and paths quoted and escaped.
pub fn to_text(store: &Store) -> (r: String)
    ensures
        r@ == enc_store(store@),
{
    let mut out: Vec<char> = Vec::new();
    out.push('[');
    proof {
        assert(out@ =~= seq!['['] + enc_items(store@.take(0)));
    }
    let mut i: usize = 0;
    while i < store.items.len()
        invariant
            i <= store.items.len(),
            out@ == seq!['['] + enc_items(store@.take(i as int)),
        decreases store.items.len() - i,
    {
        let ghost before = out@;
        if i > 0 {
            out.push(',');
        }
        push_item(&mut out, &store.items[i]);
        proof {
            let pre = store@.take(i as int);
            let x = store@[i as int];
            assert(store.items@[i as int]@ == x);
            lemma_enc_items_push(pre, x);
            assert(pre.push(x) =~= store@.take(i as int + 1));
            if i == 0 {
                assert(out@ =~= seq!['['] + enc_items(store@.take(i as int + 1)));
            } else {
                assert(out@ =~= (before + seq![',']) + enc_item(x));
                assert((seq!['['] + enc_items(pre)) + seq![','] + enc_item(x) =~= seq!['[']
                    + (enc_items(pre) + seq![','] + enc_item(x)));
                assert(out@ =~= seq!['['] + enc_items(store@.take(i as int + 1)));
            }
        }
        i += 1;
    }
    out.push(']');
    proof {
        assert(store@.take(store@.len() as int) =~= store@);
        assert(out@ =~= enc_store(store@));
    }
    chars_to_string(out)
}

/// The round trip: parsing a serialized store gives the store back,
/// whatever records it holds.
pub proof fn lemma_round_trip(items: Seq<ItemV>)
    ensures
        sp_store(enc_store(items)) == Some(items),
{
    let s = enc_store(items);
    let s1 = enc_items(items) + seq![']'];
    assert(s =~= seq!['['] + s1);
    lemma_expect_rt(seq!['['], s1);
    assert(expect(s, seq!['[']) == Some(s1));
    if items.len() == 0 {
        assert(s1 =~= seq![']']);
    } else {
        lemma_enc_items_nonempty(items);
        assert(s1.len() >= 2);
        assert(s1 != seq![']']);
        lemma_sp_items_rt(items, seq![']']);
    }
}

} // verus!
