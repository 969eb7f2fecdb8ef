//! The on-disk record format for protocol messages: one self-delimited
//! structured-text record per line, holding the kind, the identifier, the
//! operation number, and the two strings (transaction id, sender id) with
//! explicit lengths, so that a record never spans lines and replay can parse
//! each line on its own.
//!
//! A line reads `<kind> <uid> <opid> <txid len> <senderid len> <txid><senderid>`,
//! every number in decimal without leading zeros.

use vstd::prelude::*;
use crate::message::MessageModel;
use crate::message::MessageType;
use crate::message::ProtocolMessage;

verus! {

/// The ten decimal digit characters.
pub open spec fn is_digit(c: char) -> bool {
    c == '0' || c == '1' || c == '2' || c == '3' || c == '4' || c == '5' || c == '6' || c == '7'
        || c == '8' || c == '9'
}

/// The numeric value of a digit character (meaningful only on digits).
pub open spec fn digit_val(c: char) -> int {
    if c == '0' {
        0
    } else if c == '1' {
        1
    } else if c == '2' {
        2
    } else if c == '3' {
        3
    } else if c == '4' {
        4
    } else if c == '5' {
        5
    } else if c == '6' {
        6
    } else if c == '7' {
        7
    } else if c == '8' {
        8
    } else {
        9
    }
}

/// The digit character for a value below ten.
pub open spec fn digit_char(d: int) -> char {
    if d == 0 {
        '0'
    } else if d == 1 {
        '1'
    } else if d == 2 {
        '2'
    } else if d == 3 {
        '3'
    } else if d == 4 {
        '4'
    } else if d == 5 {
        '5'
    } else if d == 6 {
        '6'
    } else if d == 7 {
        '7'
    } else if d == 8 {
        '8'
    } else {
        '9'
    }
}

/// The decimal rendering of a non-negative number: no sign, no leading zero
/// (`0` itself renders as the single digit `0`).
pub open spec fn dec_digits(n: int) -> Seq<char>
    decreases n,
{
    if n < 10 {
        seq![digit_char(n)]
    } else {
        dec_digits(n / 10).push(digit_char(n % 10))
    }
}

/// The end of the run of digit characters that starts at `i`: the first
/// position at or after `i` holding no digit.
pub open spec fn dec_end(s: Seq<char>, i: int) -> int
    decreases s.len() - i,
{
    if 0 <= i < s.len() && is_digit(s[i]) {
        dec_end(s, i + 1)
    } else {
        i
    }
}

/// The value of the digit characters `s[i .. j]` read in base ten.
pub open spec fn val_of(s: Seq<char>, i: int, j: int) -> int
    decreases j - i,
{
    if i < j {
        val_of(s, i, j - 1) * 10 + digit_val(s[j - 1])
    } else {
        0
    }
}

/// Reading one decimal field at position `i`: the digits up to `dec_end`,
/// rejected when empty, when written with a leading zero, or when the value
/// exceeds `cap`; otherwise the value together with the end position.
pub open spec fn scan_spec(s: Seq<char>, i: int, cap: int) -> Option<(int, int)> {
    let e = dec_end(s, i);
    if e == i {
        None
    } else if s[i] == '0' && e > i + 1 {
        None
    } else if val_of(s, i, e) > cap {
        None
    } else {
        Some((val_of(s, i, e), e))
    }
}

/// The numeric code a message kind is written as.
pub open spec fn kind_code(k: MessageType) -> int {
    match k {
        MessageType::ClientRequest => 0,
        MessageType::CoordinatorPropose => 1,
        MessageType::ParticipantVoteCommit => 2,
        MessageType::ParticipantVoteAbort => 3,
        MessageType::CoordinatorAbort => 4,
        MessageType::CoordinatorCommit => 5,
        MessageType::ClientResultCommit => 6,
        MessageType::ClientResultAbort => 7,
        MessageType::CoordinatorExit => 8,
    }
}

/// The message kind a numeric code stands for (meaningful up to eight).
pub open spec fn kind_of_code(c: int) -> MessageType {
    if c == 0 {
        MessageType::ClientRequest
    } else if c == 1 {
        MessageType::CoordinatorPropose
    } else if c == 2 {
        MessageType::ParticipantVoteCommit
    } else if c == 3 {
        MessageType::ParticipantVoteAbort
    } else if c == 4 {
        MessageType::CoordinatorAbort
    } else if c == 5 {
        MessageType::CoordinatorCommit
    } else if c == 6 {
        MessageType::ClientResultCommit
    } else if c == 7 {
        MessageType::ClientResultAbort
    } else {
        MessageType::CoordinatorExit
    }
}

/// The one line a message is persisted as.
pub open spec fn line_of(m: MessageModel) -> Seq<char> {
    dec_digits(kind_code(m.mtype)) + seq![' '] + dec_digits(m.uid) + seq![' '] + dec_digits(m.opid)
        + seq![' '] + dec_digits(m.txid.len() as int) + seq![' '] + dec_digits(
        m.senderid.len() as int,
    ) + seq![' '] + m.txid + m.senderid
}

/// What one line parses to: the five decimal fields, each followed by one
/// space, then exactly `txid len + senderid len` characters of payload.
/// `None` when the line is not the rendering of any message.
pub open spec fn parse_line(s: Seq<char>) -> Option<MessageModel> {
    match scan_spec(s, 0, 8) {
        None => None,
        Some((k, e1)) => if !(e1 < s.len() && s[e1] == ' ') {
            None
        } else {
            match scan_spec(s, e1 + 1, u32::MAX as int) {
                None => None,
                Some((uid, e2)) => if !(e2 < s.len() && s[e2] == ' ') {
                    None
                } else {
                    match scan_spec(s, e2 + 1, u32::MAX as int) {
                        None => None,
                        Some((opid, e3)) => if !(e3 < s.len() && s[e3] == ' ') {
                            None
                        } else {
                            match scan_spec(s, e3 + 1, usize::MAX as int) {
                                None => None,
                                Some((txlen, e4)) => if !(e4 < s.len() && s[e4] == ' ') {
                                    None
                                } else {
                                    match scan_spec(s, e4 + 1, usize::MAX as int) {
                                        None => None,
                                        Some((sidlen, e5)) => if !(e5 < s.len() && s[e5] == ' ') {
                                            None
                                        } else {
                                            let i = e5 + 1;
                                            if s.len() - i == txlen + sidlen {
                                                Some(
                                                    MessageModel {
                                                        mtype: kind_of_code(k),
                                                        uid: uid,
                                                        txid: s.subrange(i, i + txlen),
                                                        senderid: s.subrange(
                                                            i + txlen,
                                                            s.len() as int,
                                                        ),
                                                        opid: opid,
                                                    },
                                                )
                                            } else {
                                                None
                                            }
                                        },
                                    }
                                },
                            }
                        },
                    }
                },
            }
        },
    }
}

/// The decimal rendering is made of digits, is never empty, and starts with
/// `0` only for the value zero itself.
pub proof fn lemma_dec_digits_wf(n: int)
    requires
        n >= 0,
    ensures
        dec_digits(n).len() >= 1,
        forall|i: int| 0 <= i < dec_digits(n).len() ==> is_digit(#[trigger] dec_digits(n)[i]),
        dec_digits(n)[0] == '0' ==> n == 0 && dec_digits(n).len() == 1,
    decreases n,
{
    if n >= 10 {
        lemma_dec_digits_wf(n / 10);
    }
}

/// The code written for a kind reads back as that kind.
pub proof fn lemma_kind_code_round_trip(k: MessageType)
    ensures
        0 <= kind_code(k) <= 8,
        kind_of_code(kind_code(k)) == k,
{
}

/// A run of digits from `i` to `e`, with `e` at the end of the text or at a
/// non-digit, ends exactly at `e`.
proof fn lemma_dec_end_of_digits(s: Seq<char>, i: int, e: int)
    requires
        0 <= i <= e <= s.len(),
        forall|j: int| i <= j < e ==> is_digit(#[trigger] s[j]),
        e == s.len() || !is_digit(s[e]),
    ensures
        dec_end(s, i) == e,
    decreases e - i,
{
    if i < e {
        lemma_dec_end_of_digits(s, i + 1, e);
    }
}

/// Digits that read `dec_digits(n)` have the value `n`.
proof fn lemma_val_of_digits(s: Seq<char>, i: int, n: int)
    requires
        n >= 0,
        0 <= i,
        i + dec_digits(n).len() <= s.len(),
        s.subrange(i, i + dec_digits(n).len() as int) == dec_digits(n),
    ensures
        val_of(s, i, i + dec_digits(n).len() as int) == n,
    decreases n,
{
    let l = dec_digits(n).len() as int;
    if n < 10 {
        assert(s[i] == s.subrange(i, i + 1)[0]);
        assert(val_of(s, i, i + 1) == val_of(s, i, i) * 10 + digit_val(s[i]));
    } else {
        let l9 = dec_digits(n / 10).len() as int;
        assert(l == l9 + 1);
        assert(s.subrange(i, i + l9) =~= dec_digits(n / 10)) by {
            assert forall|j: int| 0 <= j < l9 implies #[trigger] s.subrange(i, i + l9)[j]
                == dec_digits(n / 10)[j] by {
                assert(s.subrange(i, i + l9)[j] == s[i + j]);
                assert(s[i + j] == s.subrange(i, i + l)[j]);
                assert(dec_digits(n)[j] == dec_digits(n / 10)[j]);
            }
        }
        lemma_val_of_digits(s, i, n / 10);
        assert(s[i + l - 1] == s.subrange(i, i + l)[l - 1]);
        assert(s[i + l - 1] == digit_char(n % 10));
        assert(val_of(s, i, i + l) == val_of(s, i, i + l - 1) * 10 + digit_val(s[i + l - 1]));
        assert(digit_val(digit_char(n % 10)) == n % 10);
        vstd::arithmetic::div_mod::lemma_fundamental_div_mod(n, 10);
    }
}

/// Reading a decimal field where the text holds `dec_digits(n)` followed by
/// the end or a non-digit yields `n` and the position past the digits.
proof fn lemma_scan_of_digits(s: Seq<char>, i: int, n: int, cap: int)
    requires
        0 <= n <= cap,
        0 <= i,
        i + dec_digits(n).len() <= s.len(),
        s.subrange(i, i + dec_digits(n).len() as int) == dec_digits(n),
        i + dec_digits(n).len() == s.len() || !is_digit(s[i + dec_digits(n).len()]),
    ensures
        scan_spec(s, i, cap) == Some((n, i + dec_digits(n).len() as int)),
{
    let l = dec_digits(n).len() as int;
    lemma_dec_digits_wf(n);
    assert forall|j: int| i <= j < i + l implies is_digit(#[trigger] s[j]) by {
        assert(s[j] == s.subrange(i, i + l)[j - i]);
        assert(is_digit(dec_digits(n)[j - i]));
    }
    lemma_dec_end_of_digits(s, i, i + l);
    lemma_val_of_digits(s, i, n);
    assert(s[i] == s.subrange(i, i + l)[0]);
    if s[i] == '0' {
        assert(dec_digits(n)[0] == '0');
    }
}

/// Text that contains no newline, so that it fits one line of a log file.
pub open spec fn newline_free(s: Seq<char>) -> bool {
    forall|i: int| 0 <= i < s.len() ==> s[i] != '\n'
}

/// Self-delimitation: a message whose transaction and sender ids hold no
/// newline renders as a line that holds no newline either — one record never
/// spans lines of the backing file.
pub proof fn lemma_line_newline_free(m: MessageModel)
    requires
        m.wf(),
        newline_free(m.txid),
        newline_free(m.senderid),
    ensures
        newline_free(line_of(m)),
{
    lemma_dec_digits_wf(kind_code(m.mtype));
    lemma_dec_digits_wf(m.uid);
    lemma_dec_digits_wf(m.opid);
    lemma_dec_digits_wf(m.txid.len() as int);
    lemma_dec_digits_wf(m.senderid.len() as int);
    lemma_kind_code_round_trip(m.mtype);
    assert forall|i: int| 0 <= i < line_of(m).len() implies line_of(m)[i] != '\n' by {
        assert(!is_digit('\n'));
    }
}

/// Digit runs never have a negative value.
proof fn lemma_val_of_nonneg(s: Seq<char>, i: int, j: int)
    ensures
        val_of(s, i, j) >= 0,
    decreases j - i,
{
    if i < j {
        lemma_val_of_nonneg(s, i, j - 1);
    }
}

/// A digit run that does not start with `0` has a positive value.
proof fn lemma_val_of_positive(s: Seq<char>, i: int, j: int)
    requires
        i < j,
        s[i] != '0',
        is_digit(s[i]),
    ensures
        val_of(s, i, j) >= 1,
    decreases j - i,
{
    if i == j - 1 {
        assert(val_of(s, i, j) == val_of(s, i, i) * 10 + digit_val(s[i]));
        assert(digit_val(s[i]) >= 1);
    } else {
        lemma_val_of_positive(s, i, j - 1);
        assert(val_of(s, i, j) == val_of(s, i, j - 1) * 10 + digit_val(s[j - 1]));
        assert(digit_val(s[j - 1]) >= 0);
    }
}

/// Where the run of digits starting at `i` ends: between `i` and the end of
/// the text, with digits throughout the run and none right after it.
proof fn lemma_dec_end_props(s: Seq<char>, i: int)
    requires
        0 <= i <= s.len(),
    ensures
        i <= dec_end(s, i) <= s.len(),
        forall|j: int| i <= j < dec_end(s, i) ==> is_digit(#[trigger] s[j]),
        dec_end(s, i) == s.len() || !is_digit(s[dec_end(s, i)]),
    decreases s.len() - i,
{
    if i < s.len() && is_digit(s[i]) {
        lemma_dec_end_props(s, i + 1);
    }
}

/// The inverse of `lemma_val_of_digits`: a digit run without a leading zero
/// is the decimal rendering of its own value.
proof fn lemma_dec_digits_of_val(s: Seq<char>, i: int, e: int)
    requires
        0 <= i < e <= s.len(),
        forall|j: int| i <= j < e ==> is_digit(#[trigger] s[j]),
        s[i] == '0' ==> e == i + 1,
    ensures
        dec_digits(val_of(s, i, e)) == s.subrange(i, e),
    decreases e - i,
{
    if e == i + 1 {
        assert(val_of(s, i, e) == val_of(s, i, i) * 10 + digit_val(s[i]));
        assert(dec_digits(digit_val(s[i])) =~= s.subrange(i, e));
    } else {
        let v9 = val_of(s, i, e - 1);
        let d = digit_val(s[e - 1]);
        let v = val_of(s, i, e);
        lemma_dec_digits_of_val(s, i, e - 1);
        lemma_val_of_positive(s, i, e - 1);
        assert(v == v9 * 10 + d);
        assert(v / 10 == v9 && v % 10 == d) by (nonlinear_arith)
            requires
                v == v9 * 10 + d,
                0 <= d < 10,
                v9 >= 1,
        ;
        assert(v >= 10) by (nonlinear_arith)
            requires
                v == v9 * 10 + d,
                d >= 0,
                v9 >= 1,
        ;
        assert(dec_digits(v) == dec_digits(v9).push(digit_char(d)));
        assert(digit_char(digit_val(s[e - 1])) == s[e - 1]);
        assert(dec_digits(v) =~= s.subrange(i, e));
    }
}

/// A code below nine stands for the kind that writes it.
proof fn lemma_code_of_kind_round_trip(c: int)
    requires
        0 <= c <= 8,
    ensures
        kind_code(kind_of_code(c)) == c,
{
}

/// Soundness of parsing: a line that parses is exactly the rendering of the
/// well-formed message it parses to — so distinct lines never collapse to
/// one message, and a parsed file can be rewritten byte for byte.
pub proof fn lemma_line_of_parse(s: Seq<char>, m: MessageModel)
    requires
        parse_line(s) == Some(m),
    ensures
        m.wf(),
        s == line_of(m),
{
    let c1 = scan_spec(s, 0, 8);
    let (k, e1) = c1.unwrap();
    let c2 = scan_spec(s, e1 + 1, u32::MAX as int);
    let (uid, e2) = c2.unwrap();
    let c3 = scan_spec(s, e2 + 1, u32::MAX as int);
    let (opid, e3) = c3.unwrap();
    let c4 = scan_spec(s, e3 + 1, usize::MAX as int);
    let (txlen, e4) = c4.unwrap();
    let c5 = scan_spec(s, e4 + 1, usize::MAX as int);
    let (sidlen, e5) = c5.unwrap();
    let pt = e5 + 1;
    lemma_scan_sound(s, 0, 8);
    lemma_scan_sound(s, e1 + 1, u32::MAX as int);
    lemma_scan_sound(s, e2 + 1, u32::MAX as int);
    lemma_scan_sound(s, e3 + 1, usize::MAX as int);
    lemma_scan_sound(s, e4 + 1, usize::MAX as int);
    lemma_code_of_kind_round_trip(k);
    assert(m.txid.len() == txlen && m.senderid.len() == sidlen);
    assert(dec_digits(kind_code(m.mtype)) == s.subrange(0, e1));
    assert(dec_digits(m.uid) == s.subrange(e1 + 1, e2));
    assert(dec_digits(m.opid) == s.subrange(e2 + 1, e3));
    assert(dec_digits(m.txid.len() as int) == s.subrange(e3 + 1, e4));
    assert(dec_digits(m.senderid.len() as int) == s.subrange(e4 + 1, e5));
    assert(s =~= line_of(m));
}

/// What a successful field read says of the text: the field sits between `i`
/// and the returned end as the canonical rendering of the returned value.
proof fn lemma_scan_sound(s: Seq<char>, i: int, cap: int)
    requires
        0 <= i <= s.len(),
        scan_spec(s, i, cap) is Some,
    ensures
        scan_spec(s, i, cap) matches Some(r) && i < r.1 <= s.len() && 0 <= r.0 <= cap
            && dec_digits(r.0) == s.subrange(i, r.1),
{
    let e = dec_end(s, i);
    lemma_dec_end_props(s, i);
    lemma_val_of_nonneg(s, i, e);
    lemma_dec_digits_of_val(s, i, e);
}

/// A line parses if and only if it is the rendering of a well-formed
/// message: the format has no redundant encodings and loses no message.
pub proof fn lemma_parse_exactly_renderings(s: Seq<char>)
    ensures
        parse_line(s) is Some <==> exists|m: MessageModel| m.wf() && s == line_of(m),
{
    if parse_line(s) is Some {
        let m = parse_line(s).unwrap();
        lemma_line_of_parse(s, m);
        assert(m.wf() && s == line_of(m));
    }
    if exists|m: MessageModel| m.wf() && s == line_of(m) {
        let m = choose|m: MessageModel| m.wf() && s == line_of(m);
        lemma_parse_of_line(m);
    }
}

/// Round trip: every well-formed message parses back, unchanged, from the
/// line it is rendered as. Together with `OpLog::append`, which writes
/// exactly this rendering, this is the durability of an appended record.
pub proof fn lemma_parse_of_line(m: MessageModel)
    requires
        m.wf(),
    ensures
        parse_line(line_of(m)) == Some(m),
{
    let s = line_of(m);
    let sp = seq![' '];
    let a1 = dec_digits(kind_code(m.mtype));
    let a2 = dec_digits(m.uid);
    let a3 = dec_digits(m.opid);
    let a4 = dec_digits(m.txid.len() as int);
    let a5 = dec_digits(m.senderid.len() as int);
    lemma_kind_code_round_trip(m.mtype);
    lemma_dec_digits_wf(kind_code(m.mtype));
    lemma_dec_digits_wf(m.uid);
    lemma_dec_digits_wf(m.opid);
    lemma_dec_digits_wf(m.txid.len() as int);
    lemma_dec_digits_wf(m.senderid.len() as int);
    let p1: int = 0;
    let p2 = p1 + a1.len() as int + 1;
    let p3 = p2 + a2.len() as int + 1;
    let p4 = p3 + a3.len() as int + 1;
    let p5 = p4 + a4.len() as int + 1;
    let pt = p5 + a5.len() as int + 1;
    assert(s.subrange(p1, p1 + a1.len() as int) =~= a1);
    assert(s[p1 + a1.len() as int] == ' ');
    lemma_scan_of_digits(s, p1, kind_code(m.mtype), 8);
    assert(s.subrange(p2, p2 + a2.len() as int) =~= a2);
    assert(s[p2 + a2.len() as int] == ' ');
    lemma_scan_of_digits(s, p2, m.uid, u32::MAX as int);
    assert(s.subrange(p3, p3 + a3.len() as int) =~= a3);
    assert(s[p3 + a3.len() as int] == ' ');
    lemma_scan_of_digits(s, p3, m.opid, u32::MAX as int);
    assert(s.subrange(p4, p4 + a4.len() as int) =~= a4);
    assert(s[p4 + a4.len() as int] == ' ');
    lemma_scan_of_digits(s, p4, m.txid.len() as int, usize::MAX as int);
    assert(s.subrange(p5, p5 + a5.len() as int) =~= a5);
    assert(s[p5 + a5.len() as int] == ' ');
    lemma_scan_of_digits(s, p5, m.senderid.len() as int, usize::MAX as int);
    assert(s.len() - pt == m.txid.len() + m.senderid.len());
    assert(s.subrange(pt, pt + m.txid.len() as int) =~= m.txid);
    assert(s.subrange(pt + m.txid.len() as int, s.len() as int) =~= m.senderid);
}

fn digit_str(d: u64) -> (r: &'static str)
    requires
        d < 10,
    ensures
        r@ =~= seq![digit_char(d as int)],
{
    proof {
        reveal_strlit("0");
        reveal_strlit("1");
        reveal_strlit("2");
        reveal_strlit("3");
        reveal_strlit("4");
        reveal_strlit("5");
        reveal_strlit("6");
        reveal_strlit("7");
        reveal_strlit("8");
        reveal_strlit("9");
    }
    if d == 0 {
        "0"
    } else if d == 1 {
        "1"
    } else if d == 2 {
        "2"
    } else if d == 3 {
        "3"
    } else if d == 4 {
        "4"
    } else if d == 5 {
        "5"
    } else if d == 6 {
        "6"
    } else if d == 7 {
        "7"
    } else if d == 8 {
        "8"
    } else {
        "9"
    }
}

/// Appends the decimal rendering of `n` to `s`.
pub(crate) fn push_dec(s: &mut String, n: u64)
    ensures
        final(s)@ == old(s)@ + dec_digits(n as int),
    decreases n,
{
    if n >= 10 {
        push_dec(s, n / 10);
    }
    s.append(digit_str(n % 10));
    proof {
        assert(final(s)@ =~= old(s)@ + dec_digits(n as int));
    }
}

fn push_space(s: &mut String)
    ensures
        final(s)@ == old(s)@ + seq![' '],
{
    proof {
        reveal_strlit(" ");
    }
    let sp = " ";
    assert(sp@ =~= seq![' ']);
    s.append(sp);
}

/// The numeric code a message kind is written as.
fn kind_num(t: MessageType) -> (r: u64)
    ensures
        r as int == kind_code(t),
{
    match t {
        MessageType::ClientRequest => 0,
        MessageType::CoordinatorPropose => 1,
        MessageType::ParticipantVoteCommit => 2,
        MessageType::ParticipantVoteAbort => 3,
        MessageType::CoordinatorAbort => 4,
        MessageType::CoordinatorCommit => 5,
        MessageType::ClientResultCommit => 6,
        MessageType::ClientResultAbort => 7,
        MessageType::CoordinatorExit => 8,
    }
}

/// The message kind a numeric code stands for.
fn kind_from_num(k: u64) -> (r: MessageType)
    requires
        k <= 8,
    ensures
        r == kind_of_code(k as int),
{
    if k == 0 {
        MessageType::ClientRequest
    } else if k == 1 {
        MessageType::CoordinatorPropose
    } else if k == 2 {
        MessageType::ParticipantVoteCommit
    } else if k == 3 {
        MessageType::ParticipantVoteAbort
    } else if k == 4 {
        MessageType::CoordinatorAbort
    } else if k == 5 {
        MessageType::CoordinatorCommit
    } else if k == 6 {
        MessageType::ClientResultCommit
    } else if k == 7 {
        MessageType::ClientResultAbort
    } else {
        MessageType::CoordinatorExit
    }
}

fn is_digit_exec(c: char) -> (r: bool)
    ensures
        r == is_digit(c),
{
    c == '0' || c == '1' || c == '2' || c == '3' || c == '4' || c == '5' || c == '6' || c == '7'
        || c == '8' || c == '9'
}

fn digit_val_exec(c: char) -> (r: u64)
    requires
        is_digit(c),
    ensures
        r as int == digit_val(c),
{
    if c == '0' {
        0
    } else if c == '1' {
        1
    } else if c == '2' {
        2
    } else if c == '3' {
        3
    } else if c == '4' {
        4
    } else if c == '5' {
        5
    } else if c == '6' {
        6
    } else if c == '7' {
        7
    } else if c == '8' {
        8
    } else {
        9
    }
}

/// Reads one decimal field of `line` starting at `start`, as `scan_spec`
/// describes: the value and the position one past its digits, or `None` on
/// an empty field, a leading zero, or a value over `cap`.
fn scan_dec(line: &str, n: usize, start: usize, cap: u64) -> (r: Option<(u64, usize)>)
    requires
        n == line@.len(),
        start <= n,
    ensures
        match r {
            Some(v) => scan_spec(line@, start as int, cap as int) == Some(
                (v.0 as int, v.1 as int),
            ) && v.1 <= n,
            None => scan_spec(line@, start as int, cap as int) is None,
        },
{
    let mut i: usize = start;
    let mut acc: u64 = 0;
    let mut over: bool = false;
    while i < n && is_digit_exec(line.get_char(i))
        invariant
            start <= i <= n,
            n == line@.len(),
            dec_end(line@, start as int) == dec_end(line@, i as int),
            !over ==> acc as int == val_of(line@, start as int, i as int) && acc <= cap,
            over ==> val_of(line@, start as int, i as int) > cap,
        decreases n - i,
    {
        let d = digit_val_exec(line.get_char(i));
        if over {
            proof {
                assert(val_of(line@, start as int, i + 1 as int) == val_of(
                    line@,
                    start as int,
                    i as int,
                ) * 10 + digit_val(line@[i as int]));
            }
        } else if acc > cap / 10 {
            proof {
                assert(acc * 10 + d >= (cap / 10 + 1) * 10) by (nonlinear_arith)
                    requires
                        acc >= cap / 10 + 1,
                        d >= 0,
                ;
                assert(cap == (cap / 10) * 10 + cap % 10) by (nonlinear_arith)
                    requires
                        cap >= 0,
                ;
            }
            over = true;
        } else if acc == cap / 10 && d > cap % 10 {
            proof {
                assert(cap == (cap / 10) * 10 + cap % 10) by (nonlinear_arith)
                    requires
                        cap >= 0,
                ;
            }
            over = true;
        } else {
            proof {
                assert(acc * 10 + d <= cap) by (nonlinear_arith)
                    requires
                        acc >= 0,
                        d <= 9,
                        cap >= 0,
                        acc < cap / 10 || (acc == cap / 10 && d <= cap % 10),
                        cap == (cap / 10) * 10 + cap % 10,
                ;
            }
            acc = acc * 10 + d;
        }
        i = i + 1;
    }
    proof {
        assert(dec_end(line@, i as int) == i as int);
    }
    if i == start {
        None
    } else if line.get_char(start) == '0' && i > start + 1 {
        None
    } else if over {
        None
    } else {
        Some((acc, i))
    }
}

impl ProtocolMessage {
    /// Renders this message as the one line it is persisted as. The result
    /// contains a newline only where the transaction or sender id does, so a
    /// message with newline-free ids is a single self-delimited record.
    pub fn to_line(&self) -> (r: String)
        ensures
            r@ == line_of(self@),
            self@.wf(),
            newline_free(self.txid@) && newline_free(self.senderid@) ==> newline_free(r@),
    {
        let mut s = String::new();
        push_dec(&mut s, kind_num(self.mtype));
        push_space(&mut s);
        push_dec(&mut s, self.uid as u64);
        push_space(&mut s);
        push_dec(&mut s, self.opid as u64);
        push_space(&mut s);
        let tl = self.txid.as_str().unicode_len();
        let sl = self.senderid.as_str().unicode_len();
        push_dec(&mut s, tl as u64);
        push_space(&mut s);
        push_dec(&mut s, sl as u64);
        push_space(&mut s);
        s.append(self.txid.as_str());
        s.append(self.senderid.as_str());
        proof {
            assert(s@ =~= line_of(self@));
            if newline_free(self.txid@) && newline_free(self.senderid@) {
                lemma_line_newline_free(self@);
            }
        }
        s
    }

    /// Parses one persisted line back into a message, exactly as `parse_line`
    /// describes: `None` on any line that is not the rendering of a message,
    /// and on success the line is exactly what the message renders back to.
    pub fn from_string(line: &String) -> (r: Option<ProtocolMessage>)
        ensures
            match r {
                Some(pm) => parse_line(line@) == Some(pm@) && pm@.wf() && line@ == line_of(pm@),
                None => parse_line(line@) is None,
            },
    {
        proof {
            if parse_line(line@) is Some {
                lemma_line_of_parse(line@, parse_line(line@).unwrap());
            }
        }
        let s = line.as_str();
        let n = s.unicode_len();
        let r1 = scan_dec(s, n, 0, 8);
        if r1.is_none() {
            return None;
        }
        let (k, e1) = r1.unwrap();
        if e1 == n || s.get_char(e1) != ' ' {
            return None;
        }
        let r2 = scan_dec(s, n, e1 + 1, u32::MAX as u64);
        if r2.is_none() {
            return None;
        }
        let (uid, e2) = r2.unwrap();
        if e2 == n || s.get_char(e2) != ' ' {
            return None;
        }
        let r3 = scan_dec(s, n, e2 + 1, u32::MAX as u64);
        if r3.is_none() {
            return None;
        }
        let (opid, e3) = r3.unwrap();
        if e3 == n || s.get_char(e3) != ' ' {
            return None;
        }
        let r4 = scan_dec(s, n, e3 + 1, usize::MAX as u64);
        if r4.is_none() {
            return None;
        }
        let (txlen, e4) = r4.unwrap();
        if e4 == n || s.get_char(e4) != ' ' {
            return None;
        }
        let r5 = scan_dec(s, n, e4 + 1, usize::MAX as u64);
        if r5.is_none() {
            return None;
        }
        let (sidlen, e5) = r5.unwrap();
        if e5 == n || s.get_char(e5) != ' ' {
            return None;
        }
        let i = e5 + 1;
        let remaining = n - i;
        if txlen > remaining as u64 {
            return None;
        }
        let txl = txlen as usize;
        if sidlen != (remaining - txl) as u64 {
            return None;
        }
        let txid = String::from_str(s.substring_char(i, i + txl));
        let senderid = String::from_str(s.substring_char(i + txl, n));
        let mt = kind_from_num(k);
        Some(ProtocolMessage::instantiate(mt, uid as u32, txid, senderid, opid as u32))
    }
}

} // verus!
