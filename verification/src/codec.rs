//! The table's transport form and its proof of lossless round-tripping.
//!
//! A table is rendered as plain text built from length-prefixed records, so
//! the payload strings need no escaping and may hold any characters:
//!
//! - a record is `{length}:{payload}\n`, the length in decimal counting the
//!   payload's characters;
//! - a document is one record for the base directory, then one `E` followed
//!   by a key record and a value record for each entry in order, then a
//!   single `.` terminator.
//!
//! Parsing accepts exactly the documents this rendering produces: anything
//! else, trailing text included, is rejected, as is a document whose entries
//! repeat a key.

use vstd::prelude::*;

use crate::map::TableModel;
use crate::map::unique_keys;

verus! {

pub open spec fn is_digit(c: char) -> bool {
    c == '0' || c == '1' || c == '2' || c == '3' || c == '4' || c == '5' || c == '6' || c == '7'
        || c == '8' || c == '9'
}

pub open spec fn digit_char(d: int) -> char {
    if d == 0 {
        '0'
    } else if d == 1 {
        '1'
    } else if d == 2 {
        '2'
    } else if d == 3 {
        '3'
    } else if d == 4 {
        '4'
    } else if d == 5 {
        '5'
    } else if d == 6 {
        '6'
    } else if d == 7 {
        '7'
    } else if d == 8 {
        '8'
    } else {
        '9'
    }
}

pub open spec fn digit_val(c: char) -> nat {
    if c == '0' {
        0
    } else if c == '1' {
        1
    } else if c == '2' {
        2
    } else if c == '3' {
        3
    } else if c == '4' {
        4
    } else if c == '5' {
        5
    } else if c == '6' {
        6
    } else if c == '7' {
        7
    } else if c == '8' {
        8
    } else {
        9
    }
}

/// The decimal numeral for `n`, most significant digit first.
pub open spec fn ser_num(n: nat) -> Seq<char>
    decreases n,
{
    if n < 10 {
        seq![digit_char(n as int)]
    } else {
        ser_num(n / 10).push(digit_char((n % 10) as int))
    }
}

/// The value of a digit sequence read as a decimal numeral.
pub open spec fn digits_val(ds: Seq<char>) -> nat
    decreases ds.len(),
{
    if ds.len() == 0 {
        0
    } else {
        digits_val(ds.drop_last()) * 10 + digit_val(ds.last())
    }
}

/// How many digits stand at the front of `s`.
pub open spec fn digits_prefix_len(s: Seq<char>) -> nat
    decreases s.len(),
{
    if s.len() == 0 || !is_digit(s[0]) {
        0
    } else {
        1 + digits_prefix_len(s.drop_first())
    }
}

/// Greedily reads a decimal numeral off the front of `s`.
pub open spec fn parse_num(s: Seq<char>) -> Option<(nat, Seq<char>)> {
    let d = digits_prefix_len(s) as int;
    if d == 0 {
        None
    } else {
        Some((digits_val(s.take(d)), s.skip(d)))
    }
}

/// A rendered record: the payload's length, `:`, the payload, `\n`.
pub open spec fn ser_record(x: Seq<char>) -> Seq<char> {
    ser_num(x.len()) + seq![':'] + x + seq!['\n']
}

/// Reads one record off the front of `s`.
pub open spec fn parse_record(s: Seq<char>) -> Option<(Seq<char>, Seq<char>)> {
    match parse_num(s) {
        None => None,
        Some((n, r)) => if r.len() >= 1 + n + 1 && r[0] == ':' && r[1 + n as int] == '\n' {
            Some((r.subrange(1, 1 + n as int), r.skip(2 + n as int)))
        } else {
            None
        },
    }
}

/// Every character of a numeral is a digit.
pub proof fn lemma_ser_num_digits(n: nat)
    ensures
        forall|i: int| 0 <= i < ser_num(n).len() ==> is_digit(#[trigger] ser_num(n)[i]),
        ser_num(n).len() >= 1,
    decreases n,
{
    if n >= 10 {
        lemma_ser_num_digits(n / 10);
    }
}

/// Reading a rendered numeral back gives the number it renders.
pub proof fn lemma_digits_val_ser_num(n: nat)
    ensures
        digits_val(ser_num(n)) == n,
    decreases n,
{
    if n < 10 {
        assert(seq![digit_char(n as int)].drop_last() =~= Seq::<char>::empty());
        assert(digits_val(Seq::<char>::empty()) == 0);
        assert(digits_val(seq![digit_char(n as int)]) == n);
    } else {
        lemma_digits_val_ser_num(n / 10);
        let w = ser_num(n / 10).push(digit_char((n % 10) as int));
        assert(w.drop_last() =~= ser_num(n / 10));
        assert(w.last() == digit_char((n % 10) as int));
    }
}

/// The digit run at the front of all-digit text followed by a non-digit (or
/// by nothing) is exactly that text.
pub proof fn lemma_digits_prefix_len_exact(s: Seq<char>, rest: Seq<char>)
    requires
        forall|i: int| 0 <= i < s.len() ==> is_digit(#[trigger] s[i]),
        rest.len() == 0 || !is_digit(rest[0]),
    ensures
        digits_prefix_len(s + rest) == s.len(),
    decreases s.len(),
{
    if s.len() == 0 {
        assert(s + rest =~= rest);
    } else {
        assert((s + rest)[0] == s[0]);
        assert((s + rest).drop_first() =~= s.drop_first() + rest);
        lemma_digits_prefix_len_exact(s.drop_first(), rest);
    }
}

/// Reading a numeral appended to non-digit text yields the number and leaves
/// the text.
pub proof fn lemma_parse_num_round(n: nat, rest: Seq<char>)
    requires
        rest.len() == 0 || !is_digit(rest[0]),
    ensures
        parse_num(ser_num(n) + rest) == Some((n, rest)),
{
    lemma_ser_num_digits(n);
    lemma_digits_prefix_len_exact(ser_num(n), rest);
    let s = ser_num(n) + rest;
    let d = ser_num(n).len() as int;
    assert(s.take(d) =~= ser_num(n));
    assert(s.skip(d) =~= rest);
    lemma_digits_val_ser_num(n);
}

/// Reading a rendered record off any following text yields the payload and
/// leaves the text.
pub proof fn lemma_parse_record_round(x: Seq<char>, rest: Seq<char>)
    ensures
        parse_record(ser_record(x) + rest) == Some((x, rest)),
{
    let tail = seq![':'] + x + seq!['\n'] + rest;
    assert(ser_record(x) + rest =~= ser_num(x.len()) + tail);
    assert(!is_digit(tail[0]));
    lemma_parse_num_round(x.len(), tail);
    let n = x.len();
    assert(tail.len() >= 1 + n + 1);
    assert(tail[0] == ':');
    assert(tail[1 + n as int] == '\n');
    assert(tail.subrange(1, 1 + n as int) =~= x);
    assert(tail.skip(2 + n as int) =~= rest);
}

/// The digit run at the front of `s` lies within `s`.
pub proof fn lemma_digits_prefix_len_le(s: Seq<char>)
    ensures
        digits_prefix_len(s) <= s.len(),
    decreases s.len(),
{
    if s.len() != 0 && is_digit(s[0]) {
        lemma_digits_prefix_len_le(s.drop_first());
    }
}

/// A successfully read record leaves strictly less text than it was given.
pub proof fn lemma_parse_record_shrinks(s: Seq<char>)
    ensures
        parse_record(s) matches Some(xr) ==> xr.1.len() < s.len(),
{
    if parse_record(s) is Some {
        let d = digits_prefix_len(s) as int;
        lemma_digits_prefix_len_le(s);
        assert(d >= 1);
        match parse_num(s) {
            Some((n, r)) => {
                assert(r == s.skip(d));
                assert(r.len() == s.len() - d);
                assert(r.len() >= 1 + n + 1);
                assert(r.skip(2 + n as int).len() == r.len() - 2 - n);
            },
            None => (),
        }
    }
}

/// The rendering of one entry: marker, key record, value record.
pub open spec fn ser_entry(kv: (Seq<char>, Seq<char>)) -> Seq<char> {
    seq!['E'] + ser_record(kv.0) + ser_record(kv.1)
}

/// The renderings of all entries, in order, without the terminator.
pub open spec fn ser_entries_front(es: Seq<(Seq<char>, Seq<char>)>) -> Seq<char>
    decreases es.len(),
{
    if es.len() == 0 {
        Seq::empty()
    } else {
        ser_entry(es[0]) + ser_entries_front(es.drop_first())
    }
}

/// The rendered entry list: each entry in order, then the `.` terminator.
pub open spec fn ser_entries(es: Seq<(Seq<char>, Seq<char>)>) -> Seq<char> {
    ser_entries_front(es) + seq!['.']
}

/// Reads the entry list off the front of `s`, up to its terminator.
pub open spec fn parse_entries(s: Seq<char>) -> Option<
    (Seq<(Seq<char>, Seq<char>)>, Seq<char>),
>
    decreases s.len(),
    via parse_entries_dec
{
    if s.len() == 0 {
        None
    } else if s[0] == '.' {
        Some((Seq::empty(), s.skip(1)))
    } else if s[0] == 'E' {
        match parse_record(s.skip(1)) {
            None => None,
            Some((k, r1)) => match parse_record(r1) {
                None => None,
                Some((v, r2)) => match parse_entries(r2) {
                    None => None,
                    Some((es, r3)) => Some((seq![(k, v)] + es, r3)),
                },
            },
        }
    } else {
        None
    }
}

#[via_fn]
proof fn parse_entries_dec(s: Seq<char>) {
    if s.len() > 0 && s[0] != '.' && s[0] == 'E' {
        lemma_parse_record_shrinks(s.skip(1));
        match parse_record(s.skip(1)) {
            Some((k, r1)) => lemma_parse_record_shrinks(r1),
            None => (),
        }
    }
}

/// The rendered document: the base directory record, then the entries.
pub open spec fn ser_table(m: TableModel) -> Seq<char> {
    ser_record(m.base_dir) + ser_entries(m.entries)
}

/// Reads a whole document: base directory record, entry list, and nothing
/// after.
pub open spec fn parse_doc(s: Seq<char>) -> Option<(Seq<char>, Seq<(Seq<char>, Seq<char>)>)> {
    match parse_record(s) {
        None => None,
        Some((base, r1)) => match parse_entries(r1) {
            None => None,
            Some((es, r2)) => if r2.len() == 0 {
                Some((base, es))
            } else {
                None
            },
        },
    }
}

/// A document read back as a table; one whose entries repeat a key is
/// rejected, since a table is write-once per key.
pub open spec fn parse_table(s: Seq<char>) -> Option<TableModel> {
    match parse_doc(s) {
        None => None,
        Some((base, es)) => if unique_keys(es) {
            Some(TableModel { base_dir: base, entries: es })
        } else {
            None
        },
    }
}

/// Reading a rendered entry list off any following text yields the entries
/// and leaves the text.
pub proof fn lemma_parse_entries_round(es: Seq<(Seq<char>, Seq<char>)>, rest: Seq<char>)
    ensures
        parse_entries(ser_entries(es) + rest) == Some((es, rest)),
    decreases es.len(),
{
    let s = ser_entries(es) + rest;
    if es.len() == 0 {
        assert(s =~= seq!['.'] + rest);
        assert(s[0] == '.');
        assert(s.skip(1) =~= rest);
    } else {
        let kv = es[0];
        let tail1 = ser_record(kv.1) + ser_entries(es.drop_first()) + rest;
        assert(s[0] == 'E');
        assert(s.skip(1) =~= ser_record(kv.0) + tail1);
        lemma_parse_record_round(kv.0, tail1);
        let tail2 = ser_entries(es.drop_first()) + rest;
        assert(tail1 =~= ser_record(kv.1) + tail2);
        lemma_parse_record_round(kv.1, tail2);
        lemma_parse_entries_round(es.drop_first(), rest);
        assert(seq![(kv.0, kv.1)] + es.drop_first() =~= es);
    }
}

/// Serialization round-trips: reading back the rendering of any table whose
/// keys are unique yields that same table, mapping and base directory alike.
pub proof fn lemma_serialize_round_trip(m: TableModel)
    requires
        unique_keys(m.entries),
    ensures
        parse_table(ser_table(m)) == Some(m),
{
    lemma_parse_record_round(m.base_dir, ser_entries(m.entries));
    lemma_parse_entries_round(m.entries, Seq::empty());
    assert(ser_entries(m.entries) + Seq::<char>::empty() =~= ser_entries(m.entries));
}

/// Rendering entries one more at a time extends the rendering at its end.
pub proof fn lemma_ser_entries_front_push(
    es: Seq<(Seq<char>, Seq<char>)>,
    kv: (Seq<char>, Seq<char>),
)
    ensures
        ser_entries_front(es.push(kv)) == ser_entries_front(es) + ser_entry(kv),
    decreases es.len(),
{
    if es.len() == 0 {
        assert(es.push(kv).drop_first() =~= Seq::<(Seq<char>, Seq<char>)>::empty());
        assert(ser_entries_front(Seq::<(Seq<char>, Seq<char>)>::empty()) =~= Seq::<char>::empty());
        assert(es.push(kv)[0] == kv);
        assert(ser_entries_front(es.push(kv)) =~= ser_entries_front(es) + ser_entry(kv));
    } else {
        lemma_ser_entries_front_push(es.drop_first(), kv);
        assert(es.push(kv).drop_first() =~= es.drop_first().push(kv));
        assert(es.push(kv)[0] == es[0]);
        assert(ser_entry(es[0]) + (ser_entries_front(es.drop_first()) + ser_entry(kv)) =~= (
        ser_entry(es[0]) + ser_entries_front(es.drop_first())) + ser_entry(kv));
    }
}

/// The key and value strings of `ps`, viewed as character sequences.
pub open spec fn pairs_view(ps: Seq<(String, String)>) -> Seq<(Seq<char>, Seq<char>)> {
    Seq::new(ps.len(), |i: int| (ps[i].0@, ps[i].1@))
}

/// Relies on std's String::push: appends the given character to the end of
/// the string.
#[verifier::external_body]
pub fn push_char(s: &mut String, c: char)
    ensures
        final(s)@ == old(s)@.push(c),
{
    s.push(c);
}

/// Copies a string into a vector of its characters.
pub fn to_char_vec(s: &str) -> (r: Vec<char>)
    ensures
        r@ == s@,
{
    let n = s.unicode_len();
    let mut r: Vec<char> = Vec::new();
    let mut i: usize = 0;
    while i < n
        invariant
            n == s@.len(),
            i <= n,
            r@ =~= s@.take(i as int),
        decreases n - i,
    {
        r.push(s.get_char(i));
        proof {
            assert(r@ =~= s@.take(i + 1));
        }
        i += 1;
    }
    proof {
        assert(s@.take(n as int) =~= s@);
    }
    r
}

/// Copies a range of characters back into a string.
pub fn from_char_range(v: &Vec<char>, from: usize, to: usize) -> (r: String)
    requires
        from <= to <= v@.len(),
    ensures
        r@ == v@.subrange(from as int, to as int),
{
    let mut r = String::new();
    let mut i: usize = from;
    while i < to
        invariant
            from <= i <= to <= v@.len(),
            r@ =~= v@.subrange(from as int, i as int),
        decreases to - i,
    {
        push_char(&mut r, v[i]);
        proof {
            assert(r@ =~= v@.subrange(from as int, i + 1));
        }
        i += 1;
    }
    r
}

fn digit_to_char(d: u8) -> (c: char)
    requires
        d < 10,
    ensures
        c == digit_char(d as int),
{
    match d {
        0 => '0',
        1 => '1',
        2 => '2',
        3 => '3',
        4 => '4',
        5 => '5',
        6 => '6',
        7 => '7',
        8 => '8',
        _ => '9',
    }
}

fn char_digit(c: char) -> (r: Option<u8>)
    ensures
        match r {
            Some(d) => is_digit(c) && d < 10 && digit_val(c) == d as nat,
            None => !is_digit(c),
        },
{
    match c {
        '0' => Some(0),
        '1' => Some(1),
        '2' => Some(2),
        '3' => Some(3),
        '4' => Some(4),
        '5' => Some(5),
        '6' => Some(6),
        '7' => Some(7),
        '8' => Some(8),
        '9' => Some(9),
        _ => None,
    }
}

/// Appends the decimal numeral for `n`.
pub fn append_num(out: &mut String, n: usize)
    ensures
        final(out)@ == old(out)@ + ser_num(n as nat),
    decreases n,
{
    if n < 10 {
        push_char(out, digit_to_char(n as u8));
        proof {
            assert(old(out)@.push(digit_char(n as int)) =~= old(out)@ + ser_num(n as nat));
        }
    } else {
        append_num(out, n / 10);
        push_char(out, digit_to_char((n % 10) as u8));
        proof {
            assert((old(out)@ + ser_num((n / 10) as nat)).push(digit_char((n % 10) as int)) =~= old(
                out,
            )@ + ser_num(n as nat));
        }
    }
}

/// The digit run at the front of `s` ends exactly where the digits end.
proof fn lemma_digits_prefix_len_at(s: Seq<char>, m: int)
    requires
        0 <= m <= s.len(),
        forall|k: int| 0 <= k < m ==> is_digit(#[trigger] s[k]),
        m == s.len() || !is_digit(s[m]),
    ensures
        digits_prefix_len(s) == m,
    decreases m,
{
    if m > 0 {
        assert(forall|k: int|
            0 <= k < m - 1 ==> s.drop_first()[k] == s[k + 1] && is_digit(#[trigger] s.drop_first()[
            k]));
        if m < s.len() {
            assert(s.drop_first()[m - 1] == s[m]);
        }
        lemma_digits_prefix_len_at(s.drop_first(), m - 1);
    }
}

/// Reads one record out of `v` starting at `pos`, returning the payload and
/// the position just past the record.
pub fn parse_record_at(v: &Vec<char>, pos: usize) -> (r: Option<(String, usize)>)
    requires
        pos <= v@.len(),
    ensures
        match r {
            Some(su) => pos < su.1 <= v@.len() && parse_record(v@.skip(pos as int)) == Some(
                (su.0@, v@.skip(su.1 as int)),
            ),
            None => parse_record(v@.skip(pos as int)) is None,
        },
{
    let ghost s = v@.skip(pos as int);
    let len = v.len();
    let mut i: usize = pos;
    let mut acc: usize = 0;
    let mut big = false;
    loop
        invariant
            pos <= i <= len,
            len == v@.len(),
            s == v@.skip(pos as int),
            forall|k: int| pos <= k < i ==> is_digit(#[trigger] v@[k]),
            !big ==> acc as nat == digits_val(v@.subrange(pos as int, i as int)) && acc <= len,
            big ==> digits_val(v@.subrange(pos as int, i as int)) > len,
        ensures
            pos <= i <= len,
            i == len || !is_digit(v@[i as int]),
            forall|k: int| pos <= k < i ==> is_digit(#[trigger] v@[k]),
            !big ==> acc as nat == digits_val(v@.subrange(pos as int, i as int)) && acc <= len,
            big ==> digits_val(v@.subrange(pos as int, i as int)) > len,
        decreases len - i,
    {
        if i >= len {
            break ;
        }
        let dgo = char_digit(v[i]);
        match dgo {
            None => { break ; },
            Some(dg) => {
                proof {
                    assert(v@.subrange(pos as int, i + 1).drop_last() =~= v@.subrange(
                        pos as int,
                        i as int,
                    ));
                    assert(v@.subrange(pos as int, i + 1).last() == v@[i as int]);
                }
                if big {
                    proof {
                        let prev = digits_val(v@.subrange(pos as int, i as int));
                        assert(digits_val(v@.subrange(pos as int, i + 1)) == prev * 10 + dg);
                        assert(prev * 10 >= prev);
                    }
                } else if dg as usize <= len && acc <= (len - dg as usize) / 10 {
                    proof {
                        let bound = ((len - dg) as int) / 10;
                        assert(acc * 10 <= bound * 10) by (nonlinear_arith)
                            requires
                                acc <= bound,
                                0 <= acc,
                        ;
                        assert(bound * 10 <= len - dg);
                    }
                    acc = acc * 10 + dg as usize;
                } else {
                    proof {
                        let prev = acc as int;
                        let bound = if dg as int <= len as int {
                            ((len - dg) as int) / 10
                        } else {
                            -1
                        };
                        if dg as int <= len as int {
                            assert(prev >= bound + 1);
                            assert(prev * 10 >= (bound + 1) * 10) by (nonlinear_arith)
                                requires
                                    prev >= bound + 1,
                            ;
                            assert(bound * 10 > len - dg - 10);
                            assert(prev * 10 + dg > len);
                        } else {
                            assert(prev * 10 + dg > len) by (nonlinear_arith)
                                requires
                                    dg > len,
                                    prev >= 0,
                            ;
                        }
                        assert(digits_val(v@.subrange(pos as int, i + 1)) == prev * 10 + dg);
                    }
                    big = true;
                }
                i += 1;
            },
        }
    }
    proof {
        assert(s.take(i - pos) =~= v@.subrange(pos as int, i as int));
        assert(forall|k: int| 0 <= k < i - pos ==> s[k] == v@[pos + k]);
        if (i as int) - (pos as int) < s.len() {
            assert(s[i - pos] == v@[i as int]);
        }
        lemma_digits_prefix_len_at(s, i - pos);
    }
    if i == pos {
        return None;
    }
    let ghost d = (i - pos) as int;
    let ghost n_spec = digits_val(s.take(d));
    let ghost r_spec = s.skip(d);
    proof {
        assert(r_spec.len() == len - i);
        assert(forall|k: int| 0 <= k < r_spec.len() ==> r_spec[k] == v@[i + k]);
    }
    if big {
        proof {
            assert(n_spec > len);
            assert(!(r_spec.len() >= 1 + n_spec + 1));
        }
        return None;
    }
    let rem = len - i;
    if rem < 2 || acc > rem - 2 {
        proof {
            assert(!(r_spec.len() >= 1 + n_spec + 1));
        }
        return None;
    }
    if v[i] != ':' {
        return None;
    }
    let payload = from_char_range(v, i + 1, i + 1 + acc);
    if v[i + 1 + acc] != '\n' {
        return None;
    }
    let newpos = i + 2 + acc;
    proof {
        assert(r_spec[0] == ':');
        assert(r_spec[1 + n_spec as int] == '\n');
        assert(r_spec.subrange(1, 1 + n_spec as int) =~= v@.subrange(i + 1, i + 1 + acc));
        assert(r_spec.skip(2 + n_spec as int) =~= v@.skip(newpos as int));
    }
    Some((payload, newpos))
}

/// Reads a whole document out of `s`: the base directory and the entry
/// pairs, in order, exactly as `parse_doc` describes.
pub fn parse_doc_str(s: &str) -> (r: Option<(String, Vec<(String, String)>)>)
    ensures
        match r {
            Some(bp) => parse_doc(s@) == Some((bp.0@, pairs_view(bp.1@))),
            None => parse_doc(s@) is None,
        },
{
    let v = to_char_vec(s);
    proof {
        assert(v@.skip(0) =~= s@);
    }
    let base;
    let mut pos: usize = 0;
    match parse_record_at(&v, 0) {
        None => {
            return None;
        },
        Some(bp) => {
            base = bp.0;
            pos = bp.1;
        },
    }
    let ghost r1 = v@.skip(pos as int);
    let mut pairs: Vec<(String, String)> = Vec::new();
    let len = v.len();
    proof {
        assert(pairs_view(pairs@) =~= Seq::<(Seq<char>, Seq<char>)>::empty());
    }
    loop
        invariant
            pos <= len,
            len == v@.len(),
            parse_record(s@) == Some((base@, r1)),
            match parse_entries(v@.skip(pos as int)) {
                None => parse_entries(r1) is None,
                Some((es, rr)) => parse_entries(r1) == Some((pairs_view(pairs@) + es, rr)),
            },
        ensures
            pos < len,
            parse_entries(r1) == Some((pairs_view(pairs@), v@.skip(pos as int + 1))),
        decreases len - pos,
    {
        proof {
            assert(v@.skip(pos as int).len() == v@.len() - pos);
        }
        if pos >= len {
            proof {
                assert(v@.skip(pos as int).len() == 0);
            }
            return None;
        }
        proof {
            assert(v@.skip(pos as int)[0] == v@[pos as int]);
        }
        let c = v[pos];
        if c == '.' {
            proof {
                assert(v@.skip(pos as int).skip(1) =~= v@.skip(pos as int + 1));
                assert(parse_entries(v@.skip(pos as int)) == Some(
                    (Seq::<(Seq<char>, Seq<char>)>::empty(), v@.skip(pos as int + 1)),
                ));
                assert(pairs_view(pairs@) + Seq::<(Seq<char>, Seq<char>)>::empty() =~= pairs_view(
                    pairs@,
                ));
            }
            break ;
        }
        if c != 'E' {
            return None;
        }
        proof {
            assert(v@.skip(pos as int).skip(1) =~= v@.skip(pos as int + 1));
        }
        let k;
        let p1;
        match parse_record_at(&v, pos + 1) {
            None => {
                return None;
            },
            Some(kp) => {
                k = kp.0;
                p1 = kp.1;
            },
        }
        let val;
        let p2;
        match parse_record_at(&v, p1) {
            None => {
                return None;
            },
            Some(vp) => {
                val = vp.0;
                p2 = vp.1;
            },
        }
        proof {
            match parse_entries(v@.skip(p2 as int)) {
                None => {
                    assert(parse_entries(v@.skip(pos as int)) is None);
                },
                Some((es2, rr2)) => {
                    assert(parse_entries(v@.skip(pos as int)) == Some(
                        (seq![(k@, val@)] + es2, rr2),
                    ));
                },
            }
        }
        let ghost prev_pairs = pairs@;
        pairs.push((k, val));
        proof {
            assert(pairs_view(pairs@) =~= pairs_view(prev_pairs).push((pairs@.last().0@, pairs@.last().1@)));
            match parse_entries(v@.skip(p2 as int)) {
                None => {},
                Some((es2, rr2)) => {
                    assert(pairs_view(pairs@) + es2 =~= pairs_view(prev_pairs) + (seq![
                        (pairs@.last().0@, pairs@.last().1@),
                    ] + es2));
                },
            }
        }
        pos = p2;
    }
    if pos + 1 != len {
        proof {
            assert(v@.skip(pos as int + 1).len() != 0);
        }
        return None;
    }
    proof {
        assert(v@.skip(pos as int + 1).len() == 0);
    }
    Some((base, pairs))
}

/// Appends one rendered record carrying `x`.
pub fn append_record(out: &mut String, x: &str)
    ensures
        final(out)@ == old(out)@ + ser_record(x@),
{
    append_num(out, x.unicode_len());
    push_char(out, ':');
    out.append(x);
    push_char(out, '\n');
    proof {
        assert((((old(out)@ + ser_num(x@.len())).push(':')) + x@).push('\n') =~= old(out)@
            + ser_record(x@));
    }
}

} // verus!
