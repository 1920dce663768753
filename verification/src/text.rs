//! Text fields: NUL-padded byte strings, comma-separated label lists, and
//! the synthetic labels given to unnamed fields.
use vstd::prelude::*;

verus! {

/// The bytes before the first NUL byte (all of them if there is none).
pub open spec fn until_nul(bytes: Seq<u8>) -> Seq<u8>
    decreases bytes.len(),
{
    if bytes.len() == 0 || bytes[0] == 0 {
        Seq::empty()
    } else {
        seq![bytes[0]] + until_nul(bytes.drop_first())
    }
}

/// The characters with the Unicode `White_Space` property.
pub open spec fn is_white_space(c: char) -> bool {
    let u = c as u32;
    ||| 0x09 <= u <= 0x0d
    ||| u == 0x20
    ||| u == 0x85
    ||| u == 0xa0
    ||| u == 0x1680
    ||| 0x2000 <= u <= 0x200a
    ||| u == 0x2028
    ||| u == 0x2029
    ||| u == 0x202f
    ||| u == 0x205f
    ||| u == 0x3000
}

/// `s` without its trailing whitespace.
pub open spec fn trim_end(s: Seq<char>) -> Seq<char>
    decreases s.len(),
{
    if s.len() > 0 && is_white_space(s.last()) {
        trim_end(s.drop_last())
    } else {
        s
    }
}

/// Names what `String::from_utf8_lossy` makes of `bytes`: their UTF-8
/// decoding, with each invalid sequence replaced by U+FFFD.
pub uninterp spec fn utf8_lossy(bytes: Seq<u8>) -> Seq<char>;

/// The text of a NUL-padded string field: the bytes before the first NUL,
/// decoded as UTF-8 (lossily where they are not valid UTF-8), without
/// trailing whitespace.
pub open spec fn padded_text(bytes: Seq<u8>) -> Seq<char> {
    let stored = until_nul(bytes);
    if vstd::utf8::valid_utf8(stored) {
        trim_end(vstd::utf8::decode_utf8(stored))
    } else {
        trim_end(utf8_lossy(stored))
    }
}

/// The pieces of `s` between its commas, in order.
pub open spec fn split_commas(s: Seq<char>) -> Seq<Seq<char>>
    decreases s.len(),
{
    if s.len() == 0 {
        seq![Seq::<char>::empty()]
    } else {
        let rest = split_commas(s.drop_last());
        if s.last() == ',' {
            rest.push(Seq::<char>::empty())
        } else {
            rest.update(rest.len() - 1, rest.last().push(s.last()))
        }
    }
}

/// The decimal digit for `d`.
pub open spec fn digit(d: nat) -> char {
    if d == 0 {
        '0'
    } else if d == 1 {
        '1'
    } else if d == 2 {
        '2'
    } else if d == 3 {
        '3'
    } else if d == 4 {
        '4'
    } else if d == 5 {
        '5'
    } else if d == 6 {
        '6'
    } else if d == 7 {
        '7'
    } else if d == 8 {
        '8'
    } else {
        '9'
    }
}

/// `n` written in decimal.
pub open spec fn decimal(n: nat) -> Seq<char>
    decreases n,
{
    if n < 10 {
        seq![digit(n)]
    } else {
        decimal(n / 10).push(digit(n % 10))
    }
}

/// The label given to the `n`th field of a format whose label list is too short.
pub open spec fn field_label(n: nat) -> Seq<char> {
    seq!['f', 'i', 'e', 'l', 'd', '_'] + decimal(n)
}

/// `labels`, extended with synthetic labels until it has at least `n` of them.
pub open spec fn pad_labels(labels: Seq<Seq<char>>, n: nat) -> Seq<Seq<char>>
    decreases n - labels.len(),
{
    if labels.len() >= n {
        labels
    } else {
        pad_labels(labels.push(field_label(labels.len())), n)
    }
}

/// The texts of a list of strings.
pub open spec fn texts(v: Seq<String>) -> Seq<Seq<char>> {
    v.map_values(|s: String| s@)
}

/// The splitting of a label list never yields an empty list.
pub proof fn lemma_split_commas_len(s: Seq<char>)
    ensures
        split_commas(s).len() >= 1,
    decreases s.len(),
{
    if s.len() > 0 {
        lemma_split_commas_len(s.drop_last());
    }
}

/// Padding leaves a list with at least `n` labels.
pub proof fn lemma_pad_labels_len(labels: Seq<Seq<char>>, n: nat)
    ensures
        pad_labels(labels, n).len() >= n,
        pad_labels(labels, n).len() >= labels.len(),
    decreases n - labels.len(),
{
    if labels.len() < n {
        lemma_pad_labels_len(labels.push(field_label(labels.len())), n);
    }
}

/// Appends `c` to `s`, through `String::push`.
#[verifier::external_body]
fn push_char(s: &mut String, c: char)
    ensures
        final(s)@ == old(s)@.push(c),
{
    s.push(c);
}

/// Decodes `bytes` as UTF-8 through `String::from_utf8_lossy`. Its result is
/// named by `utf8_lossy`; where the bytes are valid UTF-8 it is their decoding.
#[verifier::external_body]
fn lossy_utf8(bytes: &[u8]) -> (s: String)
    ensures
        s@ == utf8_lossy(bytes@),
        vstd::utf8::valid_utf8(bytes@) ==> s@ == vstd::utf8::decode_utf8(bytes@),
{
    String::from_utf8_lossy(bytes).into_owned()
}

fn white_space(c: char) -> (r: bool)
    ensures
        r == is_white_space(c),
{
    let u = c as u32;
    (0x09 <= u && u <= 0x0d) || u == 0x20 || u == 0x85 || u == 0xa0 || u == 0x1680 || (0x2000
        <= u && u <= 0x200a) || u == 0x2028 || u == 0x2029 || u == 0x202f || u == 0x205f || u
        == 0x3000
}

/// `s` without its trailing whitespace.
pub fn trim_end_string(s: &str) -> (r: String)
    ensures
        r@ == trim_end(s@),
{
    let n = s.unicode_len();
    let mut j: usize = n;
    assert(s@.take(n as int) =~= s@);
    while j > 0 && white_space(s.get_char(j - 1))
        invariant
            j <= n,
            n == s@.len(),
            trim_end(s@) == trim_end(s@.take(j as int)),
        decreases j,
    {
        assert(s@.take(j as int).drop_last() =~= s@.take(j - 1));
        j = j - 1;
    }
    assert(s@.subrange(0, j as int) =~= s@.take(j as int));
    String::from_str(s.substring_char(0, j))
}

/// Decodes a fixed-size NUL-padded byte string into its trimmed text.
pub fn decode_string(bytes: &[u8]) -> (r: String)
    ensures
        r@ == padded_text(bytes@),
        vstd::utf8::valid_utf8(until_nul(bytes@)) ==> r@ == trim_end(
            vstd::utf8::decode_utf8(until_nul(bytes@)),
        ),
{
    let mut end: usize = 0;
    assert(bytes@.skip(0) =~= bytes@);
    assert(bytes@.take(0) + until_nul(bytes@) =~= until_nul(bytes@));
    while end < bytes.len() && bytes[end] != 0
        invariant
            end <= bytes@.len(),
            until_nul(bytes@) == bytes@.take(end as int) + until_nul(bytes@.skip(end as int)),
        decreases bytes@.len() - end,
    {
        let ghost rest = bytes@.skip(end as int);
        assert(rest.drop_first() =~= bytes@.skip(end + 1));
        assert(bytes@.take(end as int) + seq![rest[0]] =~= bytes@.take(end + 1));
        assert(bytes@.take(end as int) + (seq![rest[0]] + until_nul(rest.drop_first())) =~= bytes@.take(end + 1) + until_nul(bytes@.skip(end + 1)));
        end = end + 1;
    }
    assert(until_nul(bytes@.skip(end as int)) =~= Seq::<u8>::empty());
    assert(bytes@.take(end as int) + Seq::<u8>::empty() =~= bytes@.take(end as int));
    let prefix = vstd::slice::slice_subrange(bytes, 0, end);
    assert(prefix@ =~= until_nul(bytes@));
    let text = lossy_utf8(prefix);
    trim_end_string(text.as_str())
}

/// Splits `s` at its commas.
pub fn split_at_commas(s: &str) -> (r: Vec<String>)
    ensures
        texts(r@) == split_commas(s@),
{
    let n = s.unicode_len();
    let mut pieces: Vec<String> = Vec::new();
    let mut cur = String::new();
    let mut i: usize = 0;
    assert(s@.take(0) =~= Seq::<char>::empty());
    assert(texts(pieces@).push(cur@) =~= seq![Seq::<char>::empty()]);
    while i < n
        invariant
            i <= n,
            n == s@.len(),
            texts(pieces@).push(cur@) =~= split_commas(s@.take(i as int)),
        decreases n - i,
    {
        let c = s.get_char(i);
        let ghost before = s@.take(i as int);
        assert(s@.take(i + 1).drop_last() =~= before);
        assert(s@.take(i + 1).last() == c);
        proof {
            lemma_split_commas_len(before);
        }
        if c == ',' {
            let ghost old_pieces = pieces@;
            let ghost old_cur = cur@;
            pieces.push(cur);
            cur = String::new();
            assert(texts(pieces@) =~= texts(old_pieces).push(old_cur));
        } else {
            push_char(&mut cur, c);
        }
        i = i + 1;
    }
    assert(s@.take(n as int) =~= s@);
    pieces.push(cur);
    pieces
}

fn digit_char(d: usize) -> (c: char)
    requires
        d < 10,
    ensures
        c == digit(d as nat),
{
    if d == 0 {
        '0'
    } else if d == 1 {
        '1'
    } else if d == 2 {
        '2'
    } else if d == 3 {
        '3'
    } else if d == 4 {
        '4'
    } else if d == 5 {
        '5'
    } else if d == 6 {
        '6'
    } else if d == 7 {
        '7'
    } else if d == 8 {
        '8'
    } else {
        '9'
    }
}

/// Appends `n` in decimal to `s`.
fn push_decimal(s: &mut String, n: usize)
    ensures
        final(s)@ == old(s)@ + decimal(n as nat),
    decreases n,
{
    if n >= 10 {
        push_decimal(s, n / 10);
    }
    push_char(s, digit_char(n % 10));
    proof {
        if n >= 10 {
            assert(old(s)@ + decimal((n / 10) as nat) + seq![digit((n % 10) as nat)] =~= old(s)@
                + decimal(n as nat));
        } else {
            assert(old(s)@ + seq![digit(n as nat)] =~= old(s)@ + decimal(n as nat));
        }
    }
}

/// The synthetic label of the `n`th field.
pub fn field_label_string(n: usize) -> (r: String)
    ensures
        r@ == field_label(n as nat),
{
    let mut s = String::from_str("field_");
    proof {
        reveal_strlit("field_");
    }
    assert(s@ =~= seq!['f', 'i', 'e', 'l', 'd', '_']);
    push_decimal(&mut s, n);
    s
}

/// Extends `labels` with synthetic labels until it has at least `n` of them.
pub fn pad_label_list(labels: &mut Vec<String>, n: usize)
    ensures
        texts(final(labels)@) == pad_labels(texts(old(labels)@), n as nat),
{
    while labels.len() < n
        invariant
            pad_labels(texts(labels@), n as nat) == pad_labels(texts(old(labels)@), n as nat),
        decreases n - labels@.len(),
    {
        let ghost before = labels@;
        let label = field_label_string(labels.len());
        labels.push(label);
        assert(texts(labels@) =~= texts(before).push(field_label(before.len())));
    }
}

/// Padding keeps the labels that were there, in order.
pub proof fn lemma_pad_labels_prefix(labels: Seq<Seq<char>>, n: nat)
    ensures
        pad_labels(labels, n).len() >= labels.len(),
        pad_labels(labels, n).take(labels.len() as int) == labels,
    decreases n - labels.len(),
{
    if labels.len() < n {
        let next = labels.push(field_label(labels.len()));
        lemma_pad_labels_prefix(next, n);
        assert(pad_labels(next, n).take(labels.len() as int) =~= pad_labels(next, n).take(
            next.len() as int,
        ).take(labels.len() as int));
        assert(next.take(labels.len() as int) =~= labels);
    } else {
        assert(labels.take(labels.len() as int) =~= labels);
    }
}

/// `n` zero bytes.
pub open spec fn zeros(n: nat) -> Seq<u8> {
    Seq::new(n, |i: int| 0u8)
}

/// Text cut at the first NUL byte is the part before the padding, where the
/// text itself holds no NUL byte.
proof fn lemma_until_nul_of_padded(b: Seq<u8>, pad: nat)
    requires
        forall|i: int| 0 <= i < b.len() ==> b[i] != 0,
    ensures
        until_nul(b + zeros(pad)) == b,
    decreases b.len(),
{
    let whole = b + zeros(pad);
    if b.len() == 0 {
        assert(whole =~= zeros(pad));
        if pad > 0 {
            assert(whole[0] == 0);
        }
        assert(until_nul(whole) =~= b);
    } else {
        assert(whole[0] == b[0]);
        assert(whole.drop_first() =~= b.drop_first() + zeros(pad));
        lemma_until_nul_of_padded(b.drop_first(), pad);
        assert(seq![b[0]] + b.drop_first() =~= b);
    }
}

/// ASCII text without NUL characters, stored in a field as its bytes followed
/// by any number of NUL bytes, reads back as the text without its trailing
/// whitespace; its bytes are the characters' codes.
pub proof fn law_ascii_field_text(cs: Seq<char>, pad: nat)
    requires
        vstd::utf8::is_ascii_chars(cs),
        forall|i: int| 0 <= i < cs.len() ==> cs[i] != '\0',
    ensures
        vstd::utf8::encode_utf8(cs).len() == cs.len(),
        forall|i: int| 0 <= i < cs.len() ==> vstd::utf8::encode_utf8(cs)[i] == cs[i] as u8,
        padded_text(vstd::utf8::encode_utf8(cs) + zeros(pad)) == trim_end(cs),
{
    let b = vstd::utf8::encode_utf8(cs);
    vstd::utf8::is_ascii_chars_encode_utf8(cs);
    vstd::utf8::is_ascii_chars_nat_bound(cs);
    assert forall|i: int| 0 <= i < b.len() implies b[i] != 0 by {
        assert(cs[i] as u8 == b[i]);
        assert((cs[i] as nat) < 128);
        assert(cs[i] as u32 != 0);
    }
    lemma_until_nul_of_padded(b, pad);
    vstd::utf8::encode_utf8_valid_utf8(cs);
    vstd::utf8::encode_utf8_decode_utf8(cs);
}

/// ASCII text without NUL characters and without trailing whitespace, stored
/// NUL-padded, decodes back to itself: the UTF-8 decoding of the bytes before
/// the padding, trimmed at the end, is the text.
pub proof fn law_ascii_text_reads_back(cs: Seq<char>, pad: nat)
    requires
        vstd::utf8::is_ascii_chars(cs),
        forall|i: int| 0 <= i < cs.len() ==> cs[i] != '\0',
        cs.len() == 0 || !is_white_space(cs.last()),
    ensures
        ({
            let stored = until_nul(vstd::utf8::encode_utf8(cs) + zeros(pad));
            &&& vstd::utf8::valid_utf8(stored)
            &&& trim_end(vstd::utf8::decode_utf8(stored)) == cs
            &&& padded_text(vstd::utf8::encode_utf8(cs) + zeros(pad)) == cs
        }),
{
    law_ascii_field_text(cs, pad);
    let b = vstd::utf8::encode_utf8(cs);
    vstd::utf8::is_ascii_chars_encode_utf8(cs);
    vstd::utf8::is_ascii_chars_nat_bound(cs);
    assert forall|i: int| 0 <= i < b.len() implies b[i] != 0 by {
        assert(cs[i] as u8 == b[i]);
        assert((cs[i] as nat) < 128);
        assert(cs[i] as u32 != 0);
    }
    lemma_until_nul_of_padded(b, pad);
    vstd::utf8::encode_utf8_valid_utf8(cs);
    vstd::utf8::encode_utf8_decode_utf8(cs);
}

/// Trimming removes exactly the trailing whitespace: the result is a prefix
/// of `s` that does not end in whitespace, and every character cut from the
/// end of `s` is whitespace.
pub proof fn law_trim_end_cuts_only_trailing_white_space(s: Seq<char>)
    ensures
        trim_end(s).len() <= s.len(),
        trim_end(s) == s.take(trim_end(s).len() as int),
        trim_end(s).len() == 0 || !is_white_space(trim_end(s).last()),
        forall|i: int| trim_end(s).len() <= i < s.len() ==> is_white_space(#[trigger] s[i]),
    decreases s.len(),
{
    if s.len() > 0 && is_white_space(s.last()) {
        let t = s.drop_last();
        law_trim_end_cuts_only_trailing_white_space(t);
        assert(t.take(trim_end(t).len() as int) =~= s.take(trim_end(t).len() as int));
        assert forall|i: int| trim_end(s).len() <= i < s.len() implies is_white_space(#[trigger] s[i]) by {
            if i < t.len() {
                assert(s[i] == t[i]);
            }
        }
    } else {
        assert(s.take(s.len() as int) =~= s);
    }
}

/// The pieces joined again, with a comma between each two.
pub open spec fn join_commas(pieces: Seq<Seq<char>>) -> Seq<char>
    decreases pieces.len(),
{
    if pieces.len() <= 1 {
        if pieces.len() == 1 {
            pieces[0]
        } else {
            Seq::empty()
        }
    } else {
        join_commas(pieces.drop_last()) + seq![','] + pieces.last()
    }
}

/// Splitting at commas loses nothing and cuts at every comma: no piece holds
/// a comma, and joining the pieces with commas gives back `s`.
pub proof fn law_split_commas_joins_back(s: Seq<char>)
    ensures
        split_commas(s).len() >= 1,
        forall|k: int, j: int|
            0 <= k < split_commas(s).len() && 0 <= j < split_commas(s)[k].len() ==> #[trigger] split_commas(s)[k][j] != ',',
        join_commas(split_commas(s)) == s,
    decreases s.len(),
{
    lemma_split_commas_len(s);
    if s.len() > 0 {
        let t = s.drop_last();
        let rest = split_commas(t);
        law_split_commas_joins_back(t);
        let ps = split_commas(s);
        if s.last() == ',' {
            assert(ps.drop_last() =~= rest);
            assert(join_commas(ps) =~= join_commas(rest) + seq![','] + Seq::<char>::empty());
            assert(t.push(',') =~= s);
        } else {
            let lastp = rest.last().push(s.last());
            assert forall|k: int, j: int|
                0 <= k < ps.len() && 0 <= j < ps[k].len() implies #[trigger] ps[k][j] != ',' by {
                if k == rest.len() - 1 {
                    if j < rest.last().len() {
                        assert(ps[k][j] == rest[k][j]);
                    }
                } else {
                    assert(ps[k] == rest[k]);
                }
            }
            if rest.len() == 1 {
                assert(join_commas(rest) == rest[0]);
                assert(join_commas(ps) == lastp);
                assert(lastp =~= s);
            } else {
                assert(ps.drop_last() =~= rest.drop_last());
                assert(join_commas(ps) == join_commas(rest.drop_last()) + seq![','] + lastp);
                assert(join_commas(rest) == join_commas(rest.drop_last()) + seq![','] + rest.last());
                assert(join_commas(rest.drop_last()) + seq![','] + lastp =~= (join_commas(
                    rest.drop_last(),
                ) + seq![','] + rest.last()).push(s.last()));
                assert(t.push(s.last()) =~= s);
            }
        }
    }
}

/// The number that the decimal digit `c` stands for.
pub open spec fn digit_value(c: char) -> int {
    c as int - '0' as int
}

/// The number that a string of decimal digits stands for.
pub open spec fn decimal_value(s: Seq<char>) -> int
    decreases s.len(),
{
    if s.len() == 0 {
        0
    } else {
        decimal_value(s.drop_last()) * 10 + digit_value(s.last())
    }
}

/// `decimal` writes a number as it is read: its characters are digits `0`
/// to `9`, the first is not `0` unless the number is 0, and read in base ten
/// they give the number back.
pub proof fn law_decimal_reads_back(n: nat)
    ensures
        decimal(n).len() >= 1,
        forall|i: int| 0 <= i < decimal(n).len() ==> '0' <= #[trigger] decimal(n)[i] <= '9',
        n > 0 ==> decimal(n)[0] != '0',
        decimal_value(decimal(n)) == n,
    decreases n,
{
    if n >= 10 {
        law_decimal_reads_back(n / 10);
        let d = decimal(n / 10);
        assert(decimal(n).drop_last() =~= d);
        assert(decimal(n)[0] == d[0]);
        assert forall|i: int| 0 <= i < decimal(n).len() implies '0' <= #[trigger] decimal(n)[i] <= '9' by {
            if i < d.len() {
                assert(decimal(n)[i] == d[i]);
            }
        }
        assert(digit_value(digit(n % 10)) == n % 10);
        assert((n / 10) * 10 + n % 10 == n) by (nonlinear_arith);
        assert(decimal(n).last() == digit(n % 10));
        assert(decimal_value(decimal(n)) == decimal_value(d) * 10 + digit_value(digit(n % 10)));
    } else {
        assert(decimal(n).drop_last() =~= Seq::<char>::empty());
        assert(digit_value(digit(n)) == n);
        assert(decimal_value(decimal(n)) == decimal_value(Seq::<char>::empty()) * 10 + digit_value(digit(n)));
    }
}

/// Padding numbers the labels it adds by their place: a list with fewer than
/// `n` labels is extended to exactly `n`, keeping its labels, and the label
/// at each added place `i` is `field_i`; a list with `n` or more stays as it is.
pub proof fn law_padded_labels_are_numbered(labels: Seq<Seq<char>>, n: nat)
    ensures
        pad_labels(labels, n).len() == if labels.len() >= n { labels.len() } else { n },
        pad_labels(labels, n).take(labels.len() as int) == labels,
        forall|i: int| labels.len() <= i < n ==> #[trigger] pad_labels(labels, n)[i] == field_label(i as nat),
    decreases n - labels.len(),
{
    lemma_pad_labels_prefix(labels, n);
    if labels.len() < n {
        let next = labels.push(field_label(labels.len()));
        law_padded_labels_are_numbered(next, n);
        assert(pad_labels(labels, n)[labels.len() as int] == pad_labels(next, n).take(next.len() as int)[labels.len() as int]);
    }
}

/// Cutting at the first NUL keeps the bytes up to it: the result is a prefix
/// of `bytes` with no NUL byte, and it is either all of `bytes` or followed
/// in `bytes` by a NUL byte.
pub proof fn law_until_nul_stops_at_first_nul(bytes: Seq<u8>)
    ensures
        until_nul(bytes).len() <= bytes.len(),
        until_nul(bytes) == bytes.take(until_nul(bytes).len() as int),
        forall|i: int| 0 <= i < until_nul(bytes).len() ==> #[trigger] until_nul(bytes)[i] != 0,
        until_nul(bytes).len() == bytes.len() || bytes[until_nul(bytes).len() as int] == 0,
    decreases bytes.len(),
{
    if bytes.len() > 0 && bytes[0] != 0 {
        let t = bytes.drop_first();
        law_until_nul_stops_at_first_nul(t);
        let u = until_nul(t);
        assert(until_nul(bytes) == seq![bytes[0]] + u);
        assert(seq![bytes[0]] + t.take(u.len() as int) =~= bytes.take(u.len() as int + 1));
        assert forall|i: int| 0 <= i < until_nul(bytes).len() implies #[trigger] until_nul(bytes)[i] != 0 by {
            if i > 0 {
                assert(until_nul(bytes)[i] == u[i - 1]);
            }
        }
        if u.len() < t.len() {
            assert(bytes[u.len() as int + 1] == t[u.len() as int]);
        }
    } else {
        assert(bytes.take(0) =~= Seq::<u8>::empty());
    }
}

} // verus!
