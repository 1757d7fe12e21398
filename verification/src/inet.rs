//! Textual address forms.
//!
//! Human-entered addresses reach the codecs as text; this module parses
//! and validates them. The accepted grammars are the spec functions here:
//! dotted decimal for IPv4 (four decimal octets, no leading zeros), and
//! hexadecimal groups for IPv6 (eight `:`-separated groups of one to four
//! hex digits, or two runs of such groups joined by one `::` standing for
//! at least one zero group; the embedded-IPv4 tail form is not accepted).
//! A malformed address never reaches containment logic: the parsers
//! accept exactly the texts these grammars describe.

use vstd::prelude::*;

use vstd::string::StringSliceAdditionalSpecFns;

use crate::key::network_bytes;

verus! {

/// The byte of the `.` separator.
pub const DOT: u8 = 0x2e;

/// The byte of the `:` separator.
pub const COLON: u8 = 0x3a;

/// The unique decomposition of a byte string into the runs between
/// occurrences of a separator: joining the result with the separator
/// gives the input back, and no token contains the separator. The
/// decomposition of an empty string is one empty token.
pub open spec fn split_sep(s: Seq<u8>, sep: u8) -> Seq<Seq<u8>>
    decreases s.len(),
{
    if s.len() == 0 {
        seq![Seq::<u8>::empty()]
    } else if s[0] == sep {
        seq![Seq::<u8>::empty()] + split_sep(s.drop_first(), sep)
    } else {
        let rest = split_sep(s.drop_first(), sep);
        rest.update(0, seq![s[0]] + rest[0])
    }
}

/// A split is never empty.
pub proof fn lemma_split_sep_len(s: Seq<u8>, sep: u8)
    ensures
        split_sep(s, sep).len() >= 1,
    decreases s.len(),
{
    if s.len() > 0 {
        lemma_split_sep_len(s.drop_first(), sep);
    }
}

/// Compute the decomposition of `b` from position `from` on.
fn split_sep_from(b: &[u8], from: usize, sep: u8) -> (r: Vec<Vec<u8>>)
    requires
        from <= b@.len(),
    ensures
        r.deep_view() =~~= split_sep(b@.subrange(from as int, b@.len() as int), sep),
    decreases b@.len() - from,
{
    let ghost suffix = b@.subrange(from as int, b@.len() as int);
    if from == b.len() {
        let mut one: Vec<Vec<u8>> = Vec::new();
        one.push(Vec::new());
        proof {
            assert(suffix =~= Seq::<u8>::empty());
            assert(one.deep_view() =~~= split_sep(suffix, sep));
        }
        one
    } else if b[from] == sep {
        let mut rest = split_sep_from(b, from + 1, sep);
        rest.insert(0, Vec::new());
        proof {
            assert(b@.subrange(from + 1, b@.len() as int) =~= suffix.drop_first());
            assert(rest.deep_view() =~~= seq![Seq::<u8>::empty()] + split_sep(
                suffix.drop_first(),
                sep,
            ));
            assert(split_sep(suffix, sep) == seq![Seq::<u8>::empty()] + split_sep(
                suffix.drop_first(),
                sep,
            ));
        }
        rest
    } else {
        let mut rest = split_sep_from(b, from + 1, sep);
        let ghost rv = rest.deep_view();
        proof {
            assert(b@.subrange(from + 1, b@.len() as int) =~= suffix.drop_first());
            lemma_split_sep_len(suffix.drop_first(), sep);
            assert(rv.len() >= 1);
            assert(rest@.len() == rv.len());
        }
        let mut head = rest.remove(0);
        head.insert(0, b[from]);
        rest.insert(0, head);
        proof {
            assert(b@.subrange(from + 1, b@.len() as int) =~= suffix.drop_first());
            let spec_rest = split_sep(suffix.drop_first(), sep);
            assert(rv =~~= spec_rest);
            assert(head@ =~= seq![suffix[0]] + rv[0]);
            assert(rest.deep_view() =~~= rv.update(0, seq![suffix[0]] + rv[0]));
            assert(split_sep(suffix, sep) == spec_rest.update(0, seq![suffix[0]] + spec_rest[0]));
            assert(rv.update(0, seq![suffix[0]] + rv[0]) =~~= spec_rest.update(
                0,
                seq![suffix[0]] + spec_rest[0],
            ));
        }
        rest
    }
}

/// Decompose a byte string at a separator.
pub fn split_bytes(b: &[u8], sep: u8) -> (r: Vec<Vec<u8>>)
    ensures
        r.deep_view() =~~= split_sep(b@, sep),
{
    let r = split_sep_from(b, 0, sep);
    proof {
        assert(b@.subrange(0, b@.len() as int) =~= b@);
    }
    r
}

/// A decimal digit byte.
pub open spec fn is_digit(b: u8) -> bool {
    0x30 <= b <= 0x39
}

/// The number a string of decimal digit bytes denotes.
pub open spec fn dec_val(s: Seq<u8>) -> int
    decreases s.len(),
{
    if s.len() == 0 {
        0
    } else {
        dec_val(s.drop_last()) * 10 + (s.last() - 0x30)
    }
}

/// 10 to the n-th power.
pub open spec fn pow10(n: nat) -> nat
    decreases n,
{
    if n == 0 {
        1
    } else {
        10 * pow10((n - 1) as nat)
    }
}

/// A digit string's value is non-negative and below 10^length.
pub proof fn lemma_dec_val_bound(s: Seq<u8>)
    requires
        forall|i: int| 0 <= i < s.len() ==> is_digit(#[trigger] s[i]),
    ensures
        0 <= dec_val(s) < pow10(s.len()),
    decreases s.len(),
{
    if s.len() > 0 {
        assert(forall|i: int|
            0 <= i < s.drop_last().len() ==> is_digit(#[trigger] s.drop_last()[i]));
        lemma_dec_val_bound(s.drop_last());
    }
}

/// The text of one IPv4 octet: one to three decimal digits, no leading
/// zero, value at most 255.
pub open spec fn valid_octet_text(s: Seq<u8>) -> bool {
    &&& 1 <= s.len() <= 3
    &&& forall|i: int| 0 <= i < s.len() ==> is_digit(#[trigger] s[i])
    &&& (s.len() > 1 ==> s[0] != 0x30)
    &&& dec_val(s) <= 255
}

/// Parse one octet token.
fn parse_octet_tok(t: &Vec<u8>) -> (r: Option<u8>)
    ensures
        match r {
            Some(v) => valid_octet_text(t@) && dec_val(t@) == v,
            None => !valid_octet_text(t@),
        },
{
    let n: usize = t.len();
    if n == 0 || n > 3 {
        return None;
    }
    if n > 1 && t[0] == 0x30 {
        return None;
    }
    let mut acc: u32 = 0;
    let mut i: usize = 0;
    proof {
        assert(t@.subrange(0, 0) =~= Seq::<u8>::empty());
    }
    while i < n
        invariant
            i <= n,
            n == t@.len() <= 3,
            acc == dec_val(t@.subrange(0, i as int)),
            forall|k: int| 0 <= k < i ==> is_digit(#[trigger] t@[k]),
        decreases n - i,
    {
        let b: u8 = t[i];
        if b < 0x30 || b > 0x39 {
            return None;
        }
        proof {
            assert(forall|k: int|
                0 <= k < t@.subrange(0, i as int).len() ==> is_digit(
                    #[trigger] t@.subrange(0, i as int)[k],
                ));
            lemma_dec_val_bound(t@.subrange(0, i as int));
            reveal_with_fuel(pow10, 4);
            assert(t@.subrange(0, i + 1).drop_last() =~= t@.subrange(0, i as int));
        }
        acc = acc * 10 + ((b - 0x30) as u32);
        i = i + 1;
    }
    proof {
        assert(t@.subrange(0, n as int) =~= t@);
    }
    if acc > 255 {
        return None;
    }
    Some(acc as u8)
}

/// A hexadecimal digit byte, either case.
pub open spec fn is_hex_digit(b: u8) -> bool {
    (0x30 <= b <= 0x39) || (0x61 <= b <= 0x66) || (0x41 <= b <= 0x46)
}

/// The value of one hexadecimal digit byte.
pub open spec fn hex_digit_val(b: u8) -> int {
    if 0x30 <= b <= 0x39 {
        b - 0x30
    } else if 0x61 <= b <= 0x66 {
        b - 0x61 + 10
    } else {
        b - 0x41 + 10
    }
}

/// The number a string of hexadecimal digit bytes denotes.
pub open spec fn hex_val(s: Seq<u8>) -> int
    decreases s.len(),
{
    if s.len() == 0 {
        0
    } else {
        hex_val(s.drop_last()) * 16 + hex_digit_val(s.last())
    }
}

/// 16 to the n-th power.
pub open spec fn pow16(n: nat) -> nat
    decreases n,
{
    if n == 0 {
        1
    } else {
        16 * pow16((n - 1) as nat)
    }
}

/// A hex string's value is non-negative and below 16^length.
pub proof fn lemma_hex_val_bound(s: Seq<u8>)
    requires
        forall|i: int| 0 <= i < s.len() ==> is_hex_digit(#[trigger] s[i]),
    ensures
        0 <= hex_val(s) < pow16(s.len()),
    decreases s.len(),
{
    if s.len() > 0 {
        assert(forall|i: int|
            0 <= i < s.drop_last().len() ==> is_hex_digit(#[trigger] s.drop_last()[i]));
        lemma_hex_val_bound(s.drop_last());
    }
}

/// The text of one IPv6 group: one to four hexadecimal digits.
pub open spec fn valid_hextet(s: Seq<u8>) -> bool {
    1 <= s.len() <= 4 && forall|i: int| 0 <= i < s.len() ==> is_hex_digit(#[trigger] s[i])
}

/// Parse one group token.
fn parse_hextet_tok(t: &Vec<u8>) -> (r: Option<u16>)
    ensures
        match r {
            Some(v) => valid_hextet(t@) && hex_val(t@) == v,
            None => !valid_hextet(t@),
        },
{
    let n: usize = t.len();
    if n == 0 || n > 4 {
        return None;
    }
    let mut acc: u32 = 0;
    let mut i: usize = 0;
    proof {
        assert(t@.subrange(0, 0) =~= Seq::<u8>::empty());
    }
    while i < n
        invariant
            i <= n,
            n == t@.len() <= 4,
            acc == hex_val(t@.subrange(0, i as int)),
            forall|k: int| 0 <= k < i ==> is_hex_digit(#[trigger] t@[k]),
        decreases n - i,
    {
        let b: u8 = t[i];
        let d: u32 = if b >= 0x30 && b <= 0x39 {
            (b - 0x30) as u32
        } else if b >= 0x61 && b <= 0x66 {
            (b - 0x61 + 10) as u32
        } else if b >= 0x41 && b <= 0x46 {
            (b - 0x41 + 10) as u32
        } else {
            return None;
        };
        proof {
            assert(forall|k: int|
                0 <= k < t@.subrange(0, i as int).len() ==> is_hex_digit(
                    #[trigger] t@.subrange(0, i as int)[k],
                ));
            lemma_hex_val_bound(t@.subrange(0, i as int));
            reveal_with_fuel(pow16, 5);
            assert(t@.subrange(0, i + 1).drop_last() =~= t@.subrange(0, i as int));
        }
        acc = acc * 16 + d;
        i = i + 1;
    }
    proof {
        assert(t@.subrange(0, n as int) =~= t@);
        assert(forall|k: int| 0 <= k < t@.len() ==> is_hex_digit(#[trigger] t@[k]));
        lemma_hex_val_bound(t@);
        reveal_with_fuel(pow16, 5);
    }
    Some(acc as u16)
}

/// A legal IPv4 text: four octets separated by dots.
pub open spec fn valid_ipv4_text(s: Seq<u8>) -> bool {
    let gs = split_sep(s, DOT);
    &&& gs.len() == 4
    &&& valid_octet_text(gs[0])
    &&& valid_octet_text(gs[1])
    &&& valid_octet_text(gs[2])
    &&& valid_octet_text(gs[3])
}

/// The four address bytes a legal IPv4 text denotes.
pub open spec fn ipv4_text_value(s: Seq<u8>) -> Seq<u8> {
    let gs = split_sep(s, DOT);
    seq![
        dec_val(gs[0]) as u8,
        dec_val(gs[1]) as u8,
        dec_val(gs[2]) as u8,
        dec_val(gs[3]) as u8,
    ]
}

/// Parse an IPv4 address in dotted decimal form. Returns the address
/// bytes exactly for the texts of the accepted grammar.
pub fn parse_ipv4(s: &str) -> (r: Option<[u8; 4]>)
    ensures
        match r {
            Some(a) => valid_ipv4_text(s.spec_bytes()) && a@ == ipv4_text_value(s.spec_bytes()),
            None => !valid_ipv4_text(s.spec_bytes()),
        },
{
    let b: &[u8] = s.as_bytes();
    let toks = split_bytes(b, DOT);
    let ghost gs = split_sep(b@, DOT);
    proof {
        assert(toks@.len() == toks.deep_view().len());
    }
    if toks.len() != 4 {
        return None;
    }
    proof {
        assert(toks@[0]@ == gs[0] && toks@[1]@ == gs[1] && toks@[2]@ == gs[2] && toks@[3]@
            == gs[3]);
    }
    let v0 = match parse_octet_tok(&toks[0]) {
        Some(v) => v,
        None => {
            return None;
        },
    };
    let v1 = match parse_octet_tok(&toks[1]) {
        Some(v) => v,
        None => {
            return None;
        },
    };
    let v2 = match parse_octet_tok(&toks[2]) {
        Some(v) => v,
        None => {
            return None;
        },
    };
    let v3 = match parse_octet_tok(&toks[3]) {
        Some(v) => v,
        None => {
            return None;
        },
    };
    let out: [u8; 4] = [v0, v1, v2, v3];
    proof {
        assert(out@ =~= ipv4_text_value(b@));
    }
    Some(out)
}

/// Every token in the half-open range is a legal group.
pub open spec fn all_hextets(gs: Seq<Seq<u8>>, from: int, to: int) -> bool {
    forall|i: int| from <= i < to ==> valid_hextet(#[trigger] gs[i])
}

/// The bytes the groups in the half-open range denote: two bytes per
/// group, high byte first.
pub open spec fn hextet_bytes(gs: Seq<Seq<u8>>, from: int, to: int) -> Seq<u8>
    decreases to - from,
{
    if from >= to {
        Seq::<u8>::empty()
    } else {
        seq![(hex_val(gs[from]) / 256) as u8, (hex_val(gs[from]) % 256) as u8] + hextet_bytes(
            gs,
            from + 1,
            to,
        )
    }
}

/// `n` zero bytes.
pub open spec fn zero_bytes(n: int) -> Seq<u8> {
    Seq::new(n as nat, |i: int| 0u8)
}

/// Length of the group bytes.
pub proof fn lemma_hextet_bytes_len(gs: Seq<Seq<u8>>, from: int, to: int)
    requires
        from <= to,
    ensures
        hextet_bytes(gs, from, to).len() == 2 * (to - from),
    decreases to - from,
{
    if from < to {
        lemma_hextet_bytes_len(gs, from + 1, to);
    }
}

/// The two bytes of one group within the group bytes.
pub proof fn lemma_hextet_bytes_index(gs: Seq<Seq<u8>>, from: int, to: int, q: int)
    requires
        from <= q < to,
    ensures
        hextet_bytes(gs, from, to)[2 * (q - from)] == (hex_val(gs[q]) / 256) as u8,
        hextet_bytes(gs, from, to)[2 * (q - from) + 1] == (hex_val(gs[q]) % 256) as u8,
    decreases q - from,
{
    lemma_hextet_bytes_len(gs, from, to);
    lemma_hextet_bytes_len(gs, from + 1, to);
    if q > from {
        lemma_hextet_bytes_index(gs, from + 1, to, q);
        assert(hextet_bytes(gs, from, to)[2 * (q - from)] == hextet_bytes(gs, from + 1, to)[2 * (q
            - from) - 2]);
        assert(hextet_bytes(gs, from, to)[2 * (q - from) + 1] == hextet_bytes(gs, from + 1, to)[2
            * (q - from) - 1]);
    }
}

/// The plain form: exactly eight groups.
pub open spec fn ipv6_full(gs: Seq<Seq<u8>>) -> bool {
    gs.len() == 8 && all_hextets(gs, 0, 8)
}

/// `::` alone: the all-zero address.
pub open spec fn ipv6_all_zero(gs: Seq<Seq<u8>>) -> bool {
    gs.len() == 3 && gs[0].len() == 0 && gs[1].len() == 0 && gs[2].len() == 0
}

/// A leading `::` followed by groups.
pub open spec fn ipv6_lead(gs: Seq<Seq<u8>>) -> bool {
    let n = gs.len() as int;
    n >= 3 && gs[0].len() == 0 && gs[1].len() == 0 && n - 2 <= 7 && all_hextets(gs, 2, n)
}

/// Groups followed by a trailing `::`.
pub open spec fn ipv6_trail(gs: Seq<Seq<u8>>) -> bool {
    let n = gs.len() as int;
    n >= 3 && gs[n - 1].len() == 0 && gs[n - 2].len() == 0 && n - 2 <= 7 && all_hextets(
        gs,
        0,
        n - 2,
    )
}

/// A `::` between groups, at token position `j`.
pub open spec fn ipv6_mid_at(gs: Seq<Seq<u8>>, j: int) -> bool {
    let n = gs.len() as int;
    0 < j < n - 1 && gs[j].len() == 0 && n - 1 <= 7 && all_hextets(gs, 0, j) && all_hextets(
        gs,
        j + 1,
        n,
    )
}

/// A `::` between groups.
pub open spec fn ipv6_mid(gs: Seq<Seq<u8>>) -> bool {
    exists|j: int| ipv6_mid_at(gs, j)
}

/// A legal IPv6 text, over its `:`-token decomposition.
pub open spec fn valid_ipv6_text(s: Seq<u8>) -> bool {
    let gs = split_sep(s, COLON);
    ipv6_full(gs) || ipv6_all_zero(gs) || ipv6_lead(gs) || ipv6_trail(gs) || ipv6_mid(gs)
}

/// The sixteen address bytes a legal IPv6 text denotes.
pub open spec fn ipv6_tokens_value(gs: Seq<Seq<u8>>) -> Seq<u8> {
    let n = gs.len() as int;
    if ipv6_full(gs) {
        hextet_bytes(gs, 0, 8)
    } else if ipv6_all_zero(gs) {
        zero_bytes(16)
    } else if ipv6_lead(gs) {
        zero_bytes(16 - 2 * (n - 2)) + hextet_bytes(gs, 2, n)
    } else if ipv6_trail(gs) {
        hextet_bytes(gs, 0, n - 2) + zero_bytes(16 - 2 * (n - 2))
    } else {
        let j = choose|j: int| ipv6_mid_at(gs, j);
        hextet_bytes(gs, 0, j) + zero_bytes(16 - 2 * (n - 1)) + hextet_bytes(gs, j + 1, n)
    }
}

/// The sixteen address bytes of a legal IPv6 text.
pub open spec fn ipv6_text_value(s: Seq<u8>) -> Seq<u8> {
    ipv6_tokens_value(split_sep(s, COLON))
}

/// Parse the groups of the half-open token range into the array, two
/// bytes per group starting at `offset`; the rest of the array keeps its
/// contents.
fn fill_hextets(arr: &mut [u8; 16], toks: &Vec<Vec<u8>>, from: usize, to: usize, offset: usize) -> (ok:
    bool)
    requires
        from <= to,
        to <= toks.deep_view().len(),
        offset + 2 * (to - from) <= 16,
    ensures
        ok <==> all_hextets(toks.deep_view(), from as int, to as int),
        ok ==> forall|k: int|
            0 <= k < 16 ==> final(arr)@[k] == (if offset <= k < offset + 2 * (to - from) {
                hextet_bytes(toks.deep_view(), from as int, to as int)[k - offset]
            } else {
                old(arr)@[k]
            }),
{
    let ghost gs = toks.deep_view();
    proof {
        lemma_hextet_bytes_len(gs, from as int, to as int);
    }
    let mut q: usize = from;
    while q < to
        invariant
            from <= q <= to,
            to <= gs.len(),
            gs == toks.deep_view(),
            offset + 2 * (to - from) <= 16,
            hextet_bytes(gs, from as int, to as int).len() == 2 * (to - from),
            forall|i: int| from <= i < q ==> valid_hextet(#[trigger] gs[i]),
            forall|k: int|
                0 <= k < 16 && !(offset <= k < offset + 2 * (q - from)) ==> arr@[k] == old(
                    arr,
                )@[k],
            forall|k: int|
                offset <= k < offset + 2 * (q - from) ==> arr@[k] == hextet_bytes(
                    gs,
                    from as int,
                    to as int,
                )[k - offset],
        decreases to - q,
    {
        proof {
            assert(toks@[q as int].deep_view() == gs[q as int]);
            assert(toks@[q as int]@ =~= gs[q as int]);
        }
        let v: u16 = match parse_hextet_tok(&toks[q]) {
            Some(v) => v,
            None => {
                proof {
                    assert(!valid_hextet(gs[q as int]));
                }
                return false;
            },
        };
        proof {
            lemma_hextet_bytes_index(gs, from as int, to as int, q as int);
        }
        arr[offset + 2 * (q - from)] = (v / 256) as u8;
        arr[offset + 2 * (q - from) + 1] = (v % 256) as u8;
        q = q + 1;
    }
    true
}

/// Parse an IPv6 address in colon-hexadecimal form. Returns the address
/// bytes exactly for the texts of the accepted grammar.
pub fn parse_ipv6(s: &str) -> (r: Option<[u8; 16]>)
    ensures
        match r {
            Some(a) => valid_ipv6_text(s.spec_bytes()) && a@ == ipv6_text_value(s.spec_bytes()),
            None => !valid_ipv6_text(s.spec_bytes()),
        },
{
    let b: &[u8] = s.as_bytes();
    let toks = split_bytes(b, COLON);
    let ghost gs = split_sep(b@, COLON);
    let n: usize = toks.len();
    proof {
        assert(toks@.len() == toks.deep_view().len());
    }
    let mut cnt: usize = 0;
    let mut e0: usize = 0;
    let mut e1: usize = 0;
    let mut e2: usize = 0;
    let mut i: usize = 0;
    while i < n
        invariant
            i <= n,
            n == gs.len(),
            gs == split_sep(s.spec_bytes(), COLON),
            toks.deep_view() =~~= gs,
            n == toks@.len(),
            cnt <= 3,
            cnt >= 1 ==> e0 < i && gs[e0 as int].len() == 0,
            cnt >= 2 ==> e0 < e1 < i && gs[e1 as int].len() == 0,
            cnt >= 3 ==> e1 < e2 < i && gs[e2 as int].len() == 0,
            forall|k: int|
                0 <= k < i && (cnt < 1 || k != e0) && (cnt < 2 || k != e1) && (cnt < 3 || k != e2)
                    ==> gs[k].len() != 0,
        decreases n - i,
    {
        proof {
            assert(toks@[i as int].deep_view() == gs[i as int]);
            assert(gs[i as int].len() == toks@[i as int]@.len());
        }
        if toks[i].len() == 0 {
            if cnt == 0 {
                e0 = i;
            } else if cnt == 1 {
                e1 = i;
            } else if cnt == 2 {
                e2 = i;
            } else {
                // a fourth empty token: no form has one
                proof {
                    lemma_four_empty_cases(gs, e0 as int, e1 as int, e2 as int, i as int);
                }
                return None;
            }
            cnt = cnt + 1;
        }
        i = i + 1;
    }
    if cnt == 0 {
        if n != 8 {
            return None;
        }
        let mut arr: [u8; 16] = [0u8; 16];
        if !fill_hextets(&mut arr, &toks, 0, 8, 0) {
            return None;
        }
        proof {
            assert(ipv6_full(gs));
            lemma_hextet_bytes_len(gs, 0, 8);
            assert(arr@ =~= ipv6_tokens_value(gs));
        }
        Some(arr)
    } else if cnt == 1 {
        proof {
            lemma_one_empty_cases(gs, e0 as int);
        }
        if e0 == 0 || e0 + 1 == n || n > 8 {
            return None;
        }
        let mut arr: [u8; 16] = [0u8; 16];
        if !fill_hextets(&mut arr, &toks, 0, e0, 0) {
            return None;
        }
        let right: usize = n - 1 - e0;
        if !fill_hextets(&mut arr, &toks, e0 + 1, n, 16 - 2 * right) {
            return None;
        }
        proof {
            assert(ipv6_mid_at(gs, e0 as int));
            let j = choose|j: int| ipv6_mid_at(gs, j);
            assert(gs[j].len() == 0);
            assert(j == e0 as int);
            lemma_hextet_bytes_len(gs, 0, e0 as int);
            lemma_hextet_bytes_len(gs, e0 + 1, n as int);
            assert(arr@ =~= ipv6_tokens_value(gs));
        }
        Some(arr)
    } else if cnt == 2 {
        proof {
            lemma_two_empty_cases(gs, e0 as int, e1 as int);
        }
        if e0 == 0 && e1 == 1 && n >= 3 && n - 2 <= 7 {
            let mut arr: [u8; 16] = [0u8; 16];
            if !fill_hextets(&mut arr, &toks, 2, n, 16 - 2 * (n - 2)) {
                return None;
            }
            proof {
                assert(ipv6_lead(gs));
                assert(!ipv6_full(gs) && !ipv6_all_zero(gs));
                lemma_hextet_bytes_len(gs, 2, n as int);
                assert(arr@ =~= ipv6_tokens_value(gs));
            }
            Some(arr)
        } else if e0 + 2 == n && e1 + 1 == n && n >= 3 && n - 2 <= 7 {
            let mut arr: [u8; 16] = [0u8; 16];
            if !fill_hextets(&mut arr, &toks, 0, n - 2, 0) {
                return None;
            }
            proof {
                assert(ipv6_trail(gs));
                assert(!ipv6_full(gs) && !ipv6_all_zero(gs) && !ipv6_lead(gs));
                lemma_hextet_bytes_len(gs, 0, n - 2);
                assert(arr@ =~= ipv6_tokens_value(gs));
            }
            Some(arr)
        } else {
            None
        }
    } else {
        proof {
            lemma_three_empty_cases(gs, e0 as int, e1 as int, e2 as int);
        }
        if n == 3 && e0 == 0 && e1 == 1 && e2 == 2 {
            let arr: [u8; 16] = [0u8; 16];
            proof {
                assert(ipv6_all_zero(gs));
                assert(!ipv6_full(gs));
                assert(arr@ =~= ipv6_tokens_value(gs));
            }
            Some(arr)
        } else {
            None
        }
    }
}

/// With four distinct empty tokens no form fits.
proof fn lemma_four_empty_cases(gs: Seq<Seq<u8>>, e0: int, e1: int, e2: int, e3: int)
    requires
        0 <= e0 < e1 < e2 < e3 < gs.len(),
        gs[e0].len() == 0,
        gs[e1].len() == 0,
        gs[e2].len() == 0,
        gs[e3].len() == 0,
    ensures
        !ipv6_full(gs),
        !ipv6_all_zero(gs),
        !ipv6_lead(gs),
        !ipv6_trail(gs),
        !ipv6_mid(gs),
{
    let n = gs.len() as int;
    if ipv6_full(gs) {
        assert(valid_hextet(gs[e0]));
    }
    if ipv6_all_zero(gs) {
        assert(e3 >= 3);
    }
    if ipv6_lead(gs) {
        assert(e2 >= 2 && e3 >= 2);
        assert(valid_hextet(gs[e3]));
    }
    if ipv6_trail(gs) {
        assert(e0 < n - 2 || e1 < n - 2);
        if e0 < n - 2 {
            assert(valid_hextet(gs[e0]));
        } else {
            assert(valid_hextet(gs[e1]));
        }
    }
    if ipv6_mid(gs) {
        let j = choose|j: int| ipv6_mid_at(gs, j);
        if e0 != j {
            assert(valid_hextet(gs[e0]));
        } else {
            assert(valid_hextet(gs[e1]));
        }
    }
}

/// With exactly one empty token, only the middle-gap form can fit, and
/// only at that token.
proof fn lemma_one_empty_cases(gs: Seq<Seq<u8>>, e0: int)
    requires
        0 <= e0 < gs.len(),
        gs[e0].len() == 0,
        forall|k: int| 0 <= k < gs.len() && k != e0 ==> gs[k].len() != 0,
    ensures
        !ipv6_full(gs),
        !ipv6_all_zero(gs),
        !ipv6_lead(gs),
        !ipv6_trail(gs),
        ipv6_mid(gs) ==> ipv6_mid_at(gs, e0),
{
    let n = gs.len() as int;
    if ipv6_full(gs) {
        assert(valid_hextet(gs[e0]));
    }
    if ipv6_all_zero(gs) {
        if e0 != 0 {
            assert(gs[0].len() != 0);
        } else {
            assert(gs[1].len() != 0);
        }
    }
    if ipv6_lead(gs) {
        if e0 != 0 {
            assert(gs[0].len() != 0);
        } else {
            assert(gs[1].len() != 0);
        }
    }
    if ipv6_trail(gs) {
        if e0 != n - 1 {
            assert(gs[n - 1].len() != 0);
        } else {
            assert(gs[n - 2].len() != 0);
        }
    }
    if ipv6_mid(gs) {
        let j = choose|j: int| ipv6_mid_at(gs, j);
        assert(gs[j].len() == 0);
        assert(j == e0);
    }
}

/// With exactly two empty tokens, only the leading or trailing gap forms
/// can fit, and only with the empties at the ends.
proof fn lemma_two_empty_cases(gs: Seq<Seq<u8>>, e0: int, e1: int)
    requires
        0 <= e0 < e1 < gs.len(),
        gs[e0].len() == 0,
        gs[e1].len() == 0,
        forall|k: int| 0 <= k < gs.len() && k != e0 && k != e1 ==> gs[k].len() != 0,
    ensures
        !ipv6_full(gs),
        !ipv6_all_zero(gs),
        !ipv6_mid(gs),
        ipv6_lead(gs) ==> e0 == 0 && e1 == 1,
        ipv6_trail(gs) ==> e0 == gs.len() - 2 && e1 == gs.len() - 1,
{
    let n = gs.len() as int;
    if ipv6_full(gs) {
        assert(valid_hextet(gs[e0]));
    }
    if ipv6_all_zero(gs) {
        if e0 != 0 && e1 != 0 {
            assert(gs[0].len() != 0);
        } else if e0 != 1 && e1 != 1 {
            assert(gs[1].len() != 0);
        } else {
            assert(gs[2].len() != 0);
        }
    }
    if ipv6_mid(gs) {
        let j = choose|j: int| ipv6_mid_at(gs, j);
        if e0 != j {
            assert(valid_hextet(gs[e0]));
        } else {
            assert(valid_hextet(gs[e1]));
        }
    }
    if ipv6_lead(gs) {
        if !(e0 == 0 && e1 == 1) {
            if e0 != 0 {
                assert(gs[0].len() != 0);
            } else {
                assert(gs[1].len() != 0);
            }
        }
    }
    if ipv6_trail(gs) {
        if !(e0 == n - 2 && e1 == n - 1) {
            if e1 != n - 1 {
                assert(gs[n - 1].len() != 0);
            } else {
                assert(gs[n - 2].len() != 0);
            }
        }
    }
}

/// With exactly three empty tokens, only the all-zero form can fit.
proof fn lemma_three_empty_cases(gs: Seq<Seq<u8>>, e0: int, e1: int, e2: int)
    requires
        0 <= e0 < e1 < e2 < gs.len(),
        gs[e0].len() == 0,
        gs[e1].len() == 0,
        gs[e2].len() == 0,
        forall|k: int| 0 <= k < gs.len() && k != e0 && k != e1 && k != e2 ==> gs[k].len() != 0,
    ensures
        !ipv6_full(gs),
        !ipv6_lead(gs),
        !ipv6_trail(gs),
        !ipv6_mid(gs),
        ipv6_all_zero(gs) <==> (gs.len() == 3 && e0 == 0 && e1 == 1 && e2 == 2),
{
    let n = gs.len() as int;
    if ipv6_full(gs) {
        assert(valid_hextet(gs[e0]));
    }
    if ipv6_lead(gs) {
        assert(e2 >= 2);
        assert(valid_hextet(gs[e2]));
    }
    if ipv6_trail(gs) {
        assert(e0 < n - 2);
        assert(valid_hextet(gs[e0]));
    }
    if ipv6_mid(gs) {
        let j = choose|j: int| ipv6_mid_at(gs, j);
        if e0 != j {
            assert(valid_hextet(gs[e0]));
        } else {
            assert(valid_hextet(gs[e1]));
        }
    }
    if ipv6_all_zero(gs) {
        assert(e2 <= 2);
        assert(e0 == 0 && e1 == 1 && e2 == 2);
    }
}


/// One prefix's block contains another's when its length is no greater
/// and the two addresses agree on all bits the shorter prefix covers.
pub open spec fn prefix_block_contains(a_ip: Seq<u8>, a_len: int, b_ip: Seq<u8>, b_len: int) -> bool {
    a_len <= b_len && network_bytes(b_ip, a_len) =~= network_bytes(a_ip, a_len)
}

/// A validated IPv4 prefix: a normalized address and a legal length.
#[derive(Debug, Clone, Copy, PartialEq, Eq, PartialOrd, Ord)]
pub struct Ipv4Prefix {
    prefix: [u8; 4],
    prefix_len: i32,
}

impl Ipv4Prefix {
    /// The address bytes, for specifications.
    pub closed spec fn spec_prefix(self) -> Seq<u8> {
        self.prefix@
    }

    /// The prefix length, for specifications.
    pub closed spec fn spec_len(self) -> int {
        self.prefix_len as int
    }

    /// A value of this type always holds a legal prefix.
    pub open spec fn wf(self) -> bool {
        crate::ipv4::valid_prefix4(self.spec_prefix(), self.spec_len())
    }

    /// Parse and validate a prefix from its text form and length.
    /// Succeeds exactly when the length is within bounds, the text is a
    /// legal dotted-decimal address, and the address is its own network
    /// address at that length.
    pub fn new(prefix: &str, prefix_len: i32) -> (r: Result<Ipv4Prefix, String>)
        ensures
            r is Ok <==> (0 <= prefix_len <= 32 && valid_ipv4_text(prefix.spec_bytes())
                && crate::key::normalized(ipv4_text_value(prefix.spec_bytes()), prefix_len as int)),
            match r {
                Ok(p) => p.spec_prefix() == ipv4_text_value(prefix.spec_bytes()) && p.spec_len()
                    == prefix_len && p.wf(),
                Err(_) => true,
            },
    {
        if prefix_len < 0 || prefix_len > 32 {
            return Err("Invalid IPv4 prefix length".to_owned());
        }
        let ip = match parse_ipv4(prefix) {
            Some(ip) => ip,
            None => {
                return Err("Invalid IPv4 address".to_owned());
            },
        };
        if !crate::ipv4::ipv4_prefix_valid(ip, prefix_len) {
            return Err("Invalid IPv4 prefix: not a network address for the prefix length".to_owned());
        }
        Ok(Ipv4Prefix { prefix: ip, prefix_len })
    }

    /// The address bytes.
    pub fn prefix_octets(&self) -> (r: [u8; 4])
        ensures
            r@ == self.spec_prefix(),
    {
        self.prefix
    }

    /// The prefix length.
    pub fn prefix_len(&self) -> (r: i32)
        ensures
            r as int == self.spec_len(),
    {
        self.prefix_len
    }

    /// Whether this prefix's block contains the other prefix's block.
    pub fn contains(&self, ip: &Ipv4Prefix) -> (r: bool)
        requires
            0 <= self.spec_len() <= 32,
        ensures
            r == prefix_block_contains(
                self.spec_prefix(),
                self.spec_len(),
                ip.spec_prefix(),
                ip.spec_len(),
            ),
    {
        if self.prefix_len > ip.prefix_len {
            return false;
        }
        let a = crate::ipv4::ipv4_network_address(self.prefix, self.prefix_len as u8);
        let b = crate::ipv4::ipv4_network_address(ip.prefix, self.prefix_len as u8);
        let same: bool = a[0] == b[0] && a[1] == b[1] && a[2] == b[2] && a[3] == b[3];
        proof {
            if same {
                assert(a@ =~= b@);
            }
            if network_bytes(ip.spec_prefix(), self.spec_len()) =~= network_bytes(
                self.spec_prefix(),
                self.spec_len(),
            ) {
                assert(a@ =~= b@);
            }
        }
        same
    }
}

/// A validated IPv6 prefix: a normalized address and a legal length.
#[derive(Debug, Clone, Copy, PartialEq, Eq, PartialOrd, Ord)]
pub struct Ipv6Prefix {
    prefix: [u8; 16],
    prefix_len: i32,
}

impl Ipv6Prefix {
    /// The address bytes, for specifications.
    pub closed spec fn spec_prefix(self) -> Seq<u8> {
        self.prefix@
    }

    /// The prefix length, for specifications.
    pub closed spec fn spec_len(self) -> int {
        self.prefix_len as int
    }

    /// A value of this type always holds a legal prefix.
    pub open spec fn wf(self) -> bool {
        crate::ipv6::valid_prefix6(self.spec_prefix(), self.spec_len())
    }

    /// Parse and validate a prefix from its text form and length.
    /// Succeeds exactly when the length is within bounds, the text is a
    /// legal colon-hexadecimal address, and the address is its own
    /// network address at that length.
    pub fn new(prefix: &str, prefix_len: i32) -> (r: Result<Ipv6Prefix, String>)
        ensures
            r is Ok <==> (0 <= prefix_len <= 128 && valid_ipv6_text(prefix.spec_bytes())
                && crate::key::normalized(ipv6_text_value(prefix.spec_bytes()), prefix_len as int)),
            match r {
                Ok(p) => p.spec_prefix() == ipv6_text_value(prefix.spec_bytes()) && p.spec_len()
                    == prefix_len && p.wf(),
                Err(_) => true,
            },
    {
        if prefix_len < 0 || prefix_len > 128 {
            return Err("Invalid IPv6 prefix length".to_owned());
        }
        let ip = match parse_ipv6(prefix) {
            Some(ip) => ip,
            None => {
                return Err("Invalid IPv6 address".to_owned());
            },
        };
        if !crate::ipv6::ipv6_prefix_valid(ip, prefix_len) {
            return Err("Invalid IPv6 prefix: not a network address for the prefix length".to_owned());
        }
        Ok(Ipv6Prefix { prefix: ip, prefix_len })
    }

    /// The address bytes.
    pub fn prefix_octets(&self) -> (r: [u8; 16])
        ensures
            r@ == self.spec_prefix(),
    {
        self.prefix
    }

    /// The prefix length.
    pub fn prefix_len(&self) -> (r: i32)
        ensures
            r as int == self.spec_len(),
    {
        self.prefix_len
    }

    /// Whether this prefix's block contains the other prefix's block.
    pub fn contains(&self, ip: &Ipv6Prefix) -> (r: bool)
        requires
            0 <= self.spec_len() <= 128,
        ensures
            r == prefix_block_contains(
                self.spec_prefix(),
                self.spec_len(),
                ip.spec_prefix(),
                ip.spec_len(),
            ),
    {
        if self.prefix_len > ip.prefix_len {
            return false;
        }
        let a = crate::ipv6::ipv6_network_address(self.prefix, self.prefix_len as u8);
        let b = crate::ipv6::ipv6_network_address(ip.prefix, self.prefix_len as u8);
        let mut i: usize = 0;
        while i < 16
            invariant
                i <= 16,
                a@ =~= network_bytes(self.spec_prefix(), self.spec_len()),
                b@ =~= network_bytes(ip.spec_prefix(), self.spec_len()),
                forall|k: int| 0 <= k < i ==> a@[k] == b@[k],
            decreases 16 - i,
        {
            if a[i] != b[i] {
                proof {
                    if network_bytes(ip.spec_prefix(), self.spec_len()) =~= network_bytes(
                        self.spec_prefix(),
                        self.spec_len(),
                    ) {
                        assert(a@ =~= b@);
                    }
                }
                return false;
            }
            i = i + 1;
        }
        proof {
            assert(a@ =~= b@);
        }
        true
    }
}

/// Decimal text of a non-negative number.
pub open spec fn dec_str(n: int) -> Seq<char>
    decreases n,
{
    if n < 10 {
        seq![crate::user::hex_digit_char(n)]
    } else {
        dec_str(n / 10).push(crate::user::hex_digit_char(n % 10))
    }
}

/// Decimal text of a number.
fn u32_dec(n: u32) -> (r: String)
    ensures
        r@ == dec_str(n as int),
    decreases n,
{
    if n < 10 {
        let s: String = crate::user::hex_digit_str(n as u8).to_owned();
        proof {
            assert(s@ =~= dec_str(n as int));
        }
        s
    } else {
        let mut s = u32_dec(n / 10);
        s.append(crate::user::hex_digit_str((n % 10) as u8));
        proof {
            assert(s@ =~= dec_str(n as int));
        }
        s
    }
}

/// The text of an ASN range: a single number as `AS<n>`, a wider range as
/// `AS<from> - AS<to>`.
pub open spec fn asn_range_text(start: u32, end: u32) -> Seq<char> {
    if start == end {
        "AS"@ + dec_str(start as int)
    } else {
        "AS"@ + dec_str(start as int) + " - AS"@ + dec_str(end as int)
    }
}

/// Format an ASN range for display.
pub fn format_asn_range(start: u32, end: u32) -> (r: String)
    ensures
        r@ == asn_range_text(start, end),
{
    let mut s: String = "AS".to_owned();
    let st = u32_dec(start);
    s.append(st.as_str());
    if start == end {
        proof {
            assert(s@ =~= asn_range_text(start, end));
        }
        return s;
    }
    s.append(" - AS");
    let en = u32_dec(end);
    s.append(en.as_str());
    proof {
        assert(s@ =~= asn_range_text(start, end));
    }
    s
}

} // verus!
