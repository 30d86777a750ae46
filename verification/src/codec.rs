//! Compiled-rule artifact codecs: a compact binary encoding and a
//! self-describing text encoding of parsed rule statements, both of which
//! round-trip every statement losslessly.

use vstd::prelude::*;
use vstd::utf8::{encode_utf8, decode_utf8, valid_utf8};
use crate::filter::{
    FilterItem, FilterRule, Predicate, Matcher, Action, Op, ItemView, RuleView, PredView,
    MatchView, items_view, rule_view, rules_view, lemma_rules_view_index,
};
use crate::types::MapState;

verus! {

/// 256 to the power `w`.
pub open spec fn pow256(w: nat) -> nat
    decreases w,
{
    if w == 0 {
        1
    } else {
        256 * pow256((w - 1) as nat)
    }
}

/// The `w` little-endian base-256 digits of `n`.
pub open spec fn le_bytes(n: nat, w: nat) -> Seq<u8>
    decreases w,
{
    if w == 0 {
        Seq::empty()
    } else {
        seq![(n % 256) as u8] + le_bytes(n / 256, (w - 1) as nat)
    }
}

/// The value of little-endian base-256 digits.
pub open spec fn le_val(s: Seq<u8>) -> nat
    decreases s.len(),
{
    if s.len() == 0 {
        0
    } else {
        (s[0] + 256 * le_val(s.skip(1))) as nat
    }
}

pub proof fn lemma_le_bytes_len(n: nat, w: nat)
    ensures
        le_bytes(n, w).len() == w,
    decreases w,
{
    if w > 0 {
        lemma_le_bytes_len(n / 256, (w - 1) as nat);
    }
}

pub proof fn lemma_le_roundtrip(n: nat, w: nat)
    requires
        n < pow256(w),
    ensures
        le_val(le_bytes(n, w)) == n,
    decreases w,
{
    if w == 0 {
        assert(n == 0);
    } else {
        assert(n / 256 < pow256((w - 1) as nat)) by (nonlinear_arith)
            requires
                n < 256 * pow256((w - 1) as nat),
        ;
        lemma_le_roundtrip(n / 256, (w - 1) as nat);
        let s = le_bytes(n, w);
        assert(s[0] == (n % 256) as u8);
        assert(s.skip(1) =~= le_bytes(n / 256, (w - 1) as nat));
        assert(n % 256 + 256 * (n / 256) == n);
    }
}

/// A character sequence short enough for a length prefix.
pub open spec fn str_ok(s: Seq<char>) -> bool {
    encode_utf8(s).len() < pow256(8)
}

/// Binary encoding of a string: 8-byte little-endian byte length, then the
/// UTF-8 bytes.
pub open spec fn enc_str_b(s: Seq<char>) -> Seq<u8> {
    le_bytes(encode_utf8(s).len(), 8) + encode_utf8(s)
}

pub open spec fn enc_op_b(op: Op) -> u8 {
    match op {
        Op::Eq => 0,
        Op::Neq => 1,
        Op::GT => 2,
        Op::LT => 3,
        Op::GE => 4,
        Op::LE => 5,
    }
}

pub open spec fn enc_pred_b(p: PredView) -> Seq<u8> {
    match p {
        PredView::Id => seq![0u8],
        PredView::Name => seq![1u8],
        PredView::Attr(a) => seq![2u8] + enc_str_b(a),
        PredView::Geom(g) => seq![3u8] + enc_str_b(g),
    }
}

pub open spec fn enc_map_b(m: MapState) -> u8 {
    match m {
        MapState::Unmapped => 0,
        MapState::Viewable => 1,
        MapState::Unviewable => 2,
    }
}

pub open spec fn enc_matcher_b(m: MatchView) -> Seq<u8> {
    match m {
        MatchView::IntegralValue(v) => seq![0u8] + le_bytes((v as u16) as nat, 2),
        MatchView::BoolValue(b) => seq![
            1u8,
            if b {
                1u8
            } else {
                0u8
            },
        ],
        MatchView::MapStateValue(ms) => seq![2u8, enc_map_b(ms)],
        MatchView::Wildcard(s) => seq![3u8] + enc_str_b(s),
    }
}

/// Binary encoding of a rule tree: a tag byte, then the payload; lists carry
/// an 8-byte child count.
pub open spec fn enc_rule_b(r: RuleView) -> Seq<u8>
    decreases r,
{
    match r {
        RuleView::Adhoc => seq![0u8],
        RuleView::ClientsOnly => seq![1u8],
        RuleView::Single { pred, op, matcher } => seq![2u8] + enc_pred_b(pred) + seq![
            enc_op_b(op),
        ] + enc_matcher_b(matcher),
        RuleView::All(cs) => seq![3u8] + le_bytes(cs.len(), 8) + enc_rules_b(cs),
        RuleView::Any(cs) => seq![4u8] + le_bytes(cs.len(), 8) + enc_rules_b(cs),
        RuleView::Not(b) => seq![5u8] + enc_rule_b(*b),
    }
}

pub open spec fn enc_rules_b(s: Seq<RuleView>) -> Seq<u8>
    decreases s,
{
    if s.len() == 0 {
        Seq::empty()
    } else {
        enc_rule_b(s[0]) + enc_rules_b(s.skip(1))
    }
}

pub open spec fn enc_action_b(a: Action) -> u8 {
    match a {
        Action::FilterOut => 0,
        Action::Pin => 1,
    }
}

pub open spec fn enc_item_b(it: ItemView) -> Seq<u8> {
    seq![enc_action_b(it.action)] + enc_rule_b(it.rule)
}

pub open spec fn enc_items_list_b(s: Seq<ItemView>) -> Seq<u8>
    decreases s,
{
    if s.len() == 0 {
        Seq::empty()
    } else {
        enc_item_b(s[0]) + enc_items_list_b(s.skip(1))
    }
}

/// Binary encoding of a statement list: an 8-byte count, then the items.
pub open spec fn enc_items_b(s: Seq<ItemView>) -> Seq<u8> {
    le_bytes(s.len(), 8) + enc_items_list_b(s)
}

/// All strings and list lengths of the rule fit their length prefixes.
pub open spec fn rule_bounded(r: RuleView) -> bool
    decreases r,
{
    match r {
        RuleView::Adhoc => true,
        RuleView::ClientsOnly => true,
        RuleView::Single { pred, op, matcher } => {
            let p_ok = match pred {
                PredView::Attr(a) => str_ok(a),
                PredView::Geom(g) => str_ok(g),
                _ => true,
            };
            let m_ok = match matcher {
                MatchView::Wildcard(s) => str_ok(s),
                _ => true,
            };
            p_ok && m_ok
        },
        RuleView::All(cs) => cs.len() < pow256(8) && rules_bounded(cs),
        RuleView::Any(cs) => cs.len() < pow256(8) && rules_bounded(cs),
        RuleView::Not(b) => rule_bounded(*b),
    }
}

pub open spec fn rules_bounded(s: Seq<RuleView>) -> bool
    decreases s,
{
    if s.len() == 0 {
        true
    } else {
        rule_bounded(s[0]) && rules_bounded(s.skip(1))
    }
}

pub open spec fn items_bounded(s: Seq<ItemView>) -> bool
    decreases s,
{
    if s.len() == 0 {
        true
    } else {
        rule_bounded(s[0].rule) && items_bounded(s.skip(1))
    }
}

// ---------------------------------------------------------------------------
// Binary decoding, remainder style.
// ---------------------------------------------------------------------------

pub open spec fn dec_u64_b(bs: Seq<u8>) -> Option<(nat, Seq<u8>)> {
    if bs.len() >= 8 {
        Some((le_val(bs.take(8)), bs.skip(8)))
    } else {
        None
    }
}

pub open spec fn dec_str_b(bs: Seq<u8>) -> Option<(Seq<char>, Seq<u8>)> {
    match dec_u64_b(bs) {
        None => None,
        Some((n, rem)) => {
            if n <= rem.len() && valid_utf8(rem.take(n as int)) {
                Some((decode_utf8(rem.take(n as int)), rem.skip(n as int)))
            } else {
                None
            }
        },
    }
}

pub open spec fn dec_op_b(b: u8) -> Option<Op> {
    if b == 0 {
        Some(Op::Eq)
    } else if b == 1 {
        Some(Op::Neq)
    } else if b == 2 {
        Some(Op::GT)
    } else if b == 3 {
        Some(Op::LT)
    } else if b == 4 {
        Some(Op::GE)
    } else if b == 5 {
        Some(Op::LE)
    } else {
        None
    }
}

pub open spec fn dec_pred_b(bs: Seq<u8>) -> Option<(PredView, Seq<u8>)> {
    if bs.len() == 0 {
        None
    } else if bs[0] == 0 {
        Some((PredView::Id, bs.skip(1)))
    } else if bs[0] == 1 {
        Some((PredView::Name, bs.skip(1)))
    } else if bs[0] == 2 {
        match dec_str_b(bs.skip(1)) {
            Some((a, rem)) => Some((PredView::Attr(a), rem)),
            None => None,
        }
    } else if bs[0] == 3 {
        match dec_str_b(bs.skip(1)) {
            Some((g, rem)) => Some((PredView::Geom(g), rem)),
            None => None,
        }
    } else {
        None
    }
}

pub open spec fn dec_matcher_b(bs: Seq<u8>) -> Option<(MatchView, Seq<u8>)> {
    if bs.len() == 0 {
        None
    } else if bs[0] == 0 {
        if bs.len() >= 3 {
            Some((MatchView::IntegralValue((le_val(bs.subrange(1, 3)) as u16) as i16), bs.skip(3)))
        } else {
            None
        }
    } else if bs[0] == 1 {
        if bs.len() >= 2 && (bs[1] == 0 || bs[1] == 1) {
            Some((MatchView::BoolValue(bs[1] == 1), bs.skip(2)))
        } else {
            None
        }
    } else if bs[0] == 2 {
        if bs.len() >= 2 && bs[1] <= 2 {
            let ms = if bs[1] == 0 {
                MapState::Unmapped
            } else if bs[1] == 1 {
                MapState::Viewable
            } else {
                MapState::Unviewable
            };
            Some((MatchView::MapStateValue(ms), bs.skip(2)))
        } else {
            None
        }
    } else if bs[0] == 3 {
        match dec_str_b(bs.skip(1)) {
            Some((s, rem)) => Some((MatchView::Wildcard(s), rem)),
            None => None,
        }
    } else {
        None
    }
}

pub open spec fn dec_rule_b(bs: Seq<u8>) -> Option<(RuleView, Seq<u8>)>
    decreases bs.len(), 2int, 0int,
{
    if bs.len() == 0 {
        None
    } else if bs[0] == 0 {
        Some((RuleView::Adhoc, bs.skip(1)))
    } else if bs[0] == 1 {
        Some((RuleView::ClientsOnly, bs.skip(1)))
    } else if bs[0] == 2 {
        match dec_pred_b(bs.skip(1)) {
            None => None,
            Some((pred, rem)) => {
                if rem.len() >= 1 {
                    match dec_op_b(rem[0]) {
                        None => None,
                        Some(op) => {
                            match dec_matcher_b(rem.skip(1)) {
                                None => None,
                                Some((m, rem2)) => Some(
                                    (RuleView::Single { pred, op, matcher: m }, rem2),
                                ),
                            }
                        },
                    }
                } else {
                    None
                }
            },
        }
    } else if bs[0] == 3 || bs[0] == 4 {
        if bs.len() >= 9 {
            let n = le_val(bs.subrange(1, 9));
            match dec_rules_b(bs.skip(9), n) {
                None => None,
                Some((cs, rem)) => {
                    if bs[0] == 3 {
                        Some((RuleView::All(cs), rem))
                    } else {
                        Some((RuleView::Any(cs), rem))
                    }
                },
            }
        } else {
            None
        }
    } else if bs[0] == 5 {
        match dec_rule_b(bs.skip(1)) {
            Some((r, rem)) => Some((RuleView::Not(Box::new(r)), rem)),
            None => None,
        }
    } else {
        None
    }
}

pub open spec fn dec_rules_b(bs: Seq<u8>, count: nat) -> Option<(Seq<RuleView>, Seq<u8>)>
    decreases bs.len(), 2int, 1int + count,
{
    if count == 0 {
        Some((Seq::empty(), bs))
    } else {
        match dec_rule_b(bs) {
            None => None,
            Some((r, rem)) => {
                if rem.len() >= bs.len() {
                    None
                } else {
                    match dec_rules_b(rem, (count - 1) as nat) {
                        None => None,
                        Some((more, rem2)) => Some((seq![r] + more, rem2)),
                    }
                }
            },
        }
    }
}

pub open spec fn dec_item_b(bs: Seq<u8>) -> Option<(ItemView, Seq<u8>)> {
    if bs.len() >= 1 && (bs[0] == 0 || bs[0] == 1) {
        let action = if bs[0] == 0 {
            Action::FilterOut
        } else {
            Action::Pin
        };
        match dec_rule_b(bs.skip(1)) {
            Some((r, rem)) => Some((ItemView { action, rule: r }, rem)),
            None => None,
        }
    } else {
        None
    }
}

pub open spec fn dec_items_list_b(bs: Seq<u8>, count: nat) -> Option<(Seq<ItemView>, Seq<u8>)>
    decreases bs.len(), count,
{
    if count == 0 {
        Some((Seq::empty(), bs))
    } else {
        match dec_item_b(bs) {
            None => None,
            Some((it, rem)) => {
                if rem.len() >= bs.len() {
                    None
                } else {
                    match dec_items_list_b(rem, (count - 1) as nat) {
                        None => None,
                        Some((more, rem2)) => Some((seq![it] + more, rem2)),
                    }
                }
            },
        }
    }
}

/// Binary decoding of a statement list.
pub open spec fn dec_items_b(bs: Seq<u8>) -> Option<(Seq<ItemView>, Seq<u8>)> {
    match dec_u64_b(bs) {
        None => None,
        Some((n, rem)) => dec_items_list_b(rem, n),
    }
}

} // verus!

// ---------------------------------------------------------------------------
// Binary round trip: decoding inverts encoding.
// ---------------------------------------------------------------------------

verus! {

pub proof fn lemma_dec_u64_b(n: nat, rest: Seq<u8>)
    requires
        n < pow256(8),
    ensures
        dec_u64_b(le_bytes(n, 8) + rest) == Some((n, rest)),
{
    lemma_le_bytes_len(n, 8);
    lemma_le_roundtrip(n, 8);
    let bs = le_bytes(n, 8) + rest;
    assert(bs.take(8) =~= le_bytes(n, 8));
    assert(bs.skip(8) =~= rest);
}

pub proof fn lemma_str_rt_b(s: Seq<char>, rest: Seq<u8>)
    requires
        str_ok(s),
    ensures
        dec_str_b(enc_str_b(s) + rest) == Some((s, rest)),
{
    broadcast use vstd::utf8::encode_utf8_valid_utf8, vstd::utf8::encode_utf8_decode_utf8;

    let bytes = encode_utf8(s);
    let n = bytes.len();
    assert(enc_str_b(s) + rest =~= le_bytes(n, 8) + (bytes + rest));
    lemma_dec_u64_b(n, bytes + rest);
    assert((bytes + rest).take(n as int) =~= bytes);
    assert((bytes + rest).skip(n as int) =~= rest);
}

pub proof fn lemma_pred_rt_b(p: PredView, rest: Seq<u8>)
    requires
        match p {
            PredView::Attr(a) => str_ok(a),
            PredView::Geom(g) => str_ok(g),
            _ => true,
        },
    ensures
        dec_pred_b(enc_pred_b(p) + rest) == Some((p, rest)),
{
    let bs = enc_pred_b(p) + rest;
    match p {
        PredView::Id => {
            assert(bs.skip(1) =~= rest);
        },
        PredView::Name => {
            assert(bs.skip(1) =~= rest);
        },
        PredView::Attr(a) => {
            assert(bs.skip(1) =~= enc_str_b(a) + rest);
            lemma_str_rt_b(a, rest);
        },
        PredView::Geom(g) => {
            assert(bs.skip(1) =~= enc_str_b(g) + rest);
            lemma_str_rt_b(g, rest);
        },
    }
}

pub proof fn lemma_matcher_rt_b(m: MatchView, rest: Seq<u8>)
    requires
        match m {
            MatchView::Wildcard(s) => str_ok(s),
            _ => true,
        },
    ensures
        dec_matcher_b(enc_matcher_b(m) + rest) == Some((m, rest)),
{
    let bs = enc_matcher_b(m) + rest;
    match m {
        MatchView::IntegralValue(v) => {
            let u = (v as u16) as nat;
            assert(u < pow256(2)) by {
                reveal_with_fuel(pow256, 3);
            }
            lemma_le_bytes_len(u, 2);
            lemma_le_roundtrip(u, 2);
            assert(bs.subrange(1, 3) =~= le_bytes(u, 2));
            assert(bs.skip(3) =~= rest);
            assert(((v as u16) as i16) == v) by (bit_vector);
            assert(u as u16 == v as u16);
        },
        MatchView::BoolValue(b) => {
            assert(bs.skip(2) =~= rest);
        },
        MatchView::MapStateValue(ms) => {
            assert(bs.skip(2) =~= rest);
        },
        MatchView::Wildcard(s) => {
            assert(bs.skip(1) =~= enc_str_b(s) + rest);
            lemma_str_rt_b(s, rest);
        },
    }
}

pub proof fn lemma_enc_rule_b_len(r: RuleView)
    ensures
        enc_rule_b(r).len() >= 1,
{
}

/// Round trip of one leaf comparison, binary form.
#[verifier::rlimit(60)]
pub proof fn lemma_single_rt_b(pred: PredView, op: Op, matcher: MatchView, rest: Seq<u8>)
    requires
        rule_bounded(RuleView::Single { pred, op, matcher }),
    ensures
        dec_rule_b(enc_rule_b(RuleView::Single { pred, op, matcher }) + rest) == Some(
            (RuleView::Single { pred, op, matcher }, rest),
        ),
{
    let r = RuleView::Single { pred, op, matcher };
    let bs = enc_rule_b(r) + rest;
    let tail1 = seq![enc_op_b(op)] + enc_matcher_b(matcher) + rest;
    assert(bs.skip(1) =~= enc_pred_b(pred) + tail1);
    lemma_pred_rt_b(pred, tail1);
    assert(tail1[0] == enc_op_b(op));
    assert(dec_op_b(enc_op_b(op)) == Some(op));
    assert(tail1.skip(1) =~= enc_matcher_b(matcher) + rest);
    lemma_matcher_rt_b(matcher, rest);
}

#[verifier::rlimit(60)]
pub proof fn lemma_rule_rt_b(r: RuleView, rest: Seq<u8>)
    requires
        rule_bounded(r),
    ensures
        dec_rule_b(enc_rule_b(r) + rest) == Some((r, rest)),
    decreases r, 0int,
{
    let bs = enc_rule_b(r) + rest;
    match r {
        RuleView::Adhoc => {
            assert(bs.skip(1) =~= rest);
        },
        RuleView::ClientsOnly => {
            assert(bs.skip(1) =~= rest);
        },
        RuleView::Single { pred, op, matcher } => {
            lemma_single_rt_b(pred, op, matcher, rest);
        },
        RuleView::All(cs) => {
            assert(bs[0] == 3u8);
            lemma_le_bytes_len(cs.len(), 8);
            lemma_le_roundtrip(cs.len(), 8);
            assert(bs.len() >= 9);
            assert(bs.subrange(1, 9) =~= le_bytes(cs.len(), 8));
            assert(bs.skip(9) =~= enc_rules_b(cs) + rest);
            lemma_rules_rt_b(cs, rest);
        },
        RuleView::Any(cs) => {
            assert(bs[0] == 4u8);
            lemma_le_bytes_len(cs.len(), 8);
            lemma_le_roundtrip(cs.len(), 8);
            assert(bs.len() >= 9);
            assert(bs.subrange(1, 9) =~= le_bytes(cs.len(), 8));
            assert(bs.skip(9) =~= enc_rules_b(cs) + rest);
            lemma_rules_rt_b(cs, rest);
        },
        RuleView::Not(b) => {
            assert(bs.skip(1) =~= enc_rule_b(*b) + rest);
            lemma_rule_rt_b(*b, rest);
        },
    }
}

pub proof fn lemma_rules_rt_b(cs: Seq<RuleView>, rest: Seq<u8>)
    requires
        rules_bounded(cs),
    ensures
        dec_rules_b(enc_rules_b(cs) + rest, cs.len()) == Some((cs, rest)),
    decreases cs, 1int,
{
    if cs.len() == 0 {
        assert(enc_rules_b(cs) + rest =~= rest);
    } else {
        let head = enc_rule_b(cs[0]);
        let tail = enc_rules_b(cs.skip(1)) + rest;
        let bs = enc_rules_b(cs) + rest;
        assert(bs =~= head + tail);
        lemma_rule_rt_b(cs[0], tail);
        lemma_enc_rule_b_len(cs[0]);
        assert(tail.len() < bs.len());
        lemma_rules_rt_b(cs.skip(1), rest);
        assert(seq![cs[0]] + cs.skip(1) =~= cs);
    }
}

pub proof fn lemma_item_rt_b(it: ItemView, rest: Seq<u8>)
    requires
        rule_bounded(it.rule),
    ensures
        dec_item_b(enc_item_b(it) + rest) == Some((it, rest)),
{
    let bs = enc_item_b(it) + rest;
    assert(bs.skip(1) =~= enc_rule_b(it.rule) + rest);
    lemma_rule_rt_b(it.rule, rest);
}

pub proof fn lemma_items_list_rt_b(s: Seq<ItemView>, rest: Seq<u8>)
    requires
        items_bounded(s),
    ensures
        dec_items_list_b(enc_items_list_b(s) + rest, s.len()) == Some((s, rest)),
    decreases s.len(),
{
    if s.len() == 0 {
        assert(enc_items_list_b(s) + rest =~= rest);
    } else {
        let head = enc_item_b(s[0]);
        let tail = enc_items_list_b(s.skip(1)) + rest;
        let bs = enc_items_list_b(s) + rest;
        assert(bs =~= head + tail);
        lemma_item_rt_b(s[0], tail);
        lemma_enc_rule_b_len(s[0].rule);
        assert(tail.len() < bs.len());
        lemma_items_list_rt_b(s.skip(1), rest);
        assert(seq![s[0]] + s.skip(1) =~= s);
    }
}

/// Law: decoding the binary encoding of any bounded statement list yields
/// that list back, with nothing left over.
pub proof fn lemma_binary_round_trip(s: Seq<ItemView>)
    requires
        items_bounded(s),
        s.len() < pow256(8),
    ensures
        dec_items_b(enc_items_b(s)) == Some((s, Seq::<u8>::empty())),
{
    let bs = enc_items_b(s);
    assert(bs =~= le_bytes(s.len(), 8) + (enc_items_list_b(s) + Seq::<u8>::empty()));
    lemma_dec_u64_b(s.len(), enc_items_list_b(s) + Seq::<u8>::empty());
    lemma_items_list_rt_b(s, Seq::<u8>::empty());
}

} // verus!

// ---------------------------------------------------------------------------
// The self-describing text encoding, over characters.
// ---------------------------------------------------------------------------

verus! {

use crate::text::{hex_digit_char, hex_val, is_hex_digit, all_hex_digits, hex_digit_val};

/// 16 to the power `w`.
pub open spec fn pow16(w: nat) -> nat
    decreases w,
{
    if w == 0 {
        1
    } else {
        16 * pow16((w - 1) as nat)
    }
}

/// Fixed-width hexadecimal rendering of `n`, most significant digit first.
pub open spec fn hex_w(n: nat, w: nat) -> Seq<char>
    decreases w,
{
    if w == 0 {
        Seq::empty()
    } else {
        hex_w(n / 16, (w - 1) as nat).push(hex_digit_char((n % 16) as int))
    }
}

pub proof fn lemma_hex_w_len(n: nat, w: nat)
    ensures
        hex_w(n, w).len() == w,
    decreases w,
{
    if w > 0 {
        lemma_hex_w_len(n / 16, (w - 1) as nat);
    }
}

pub proof fn lemma_hex_w_digits(n: nat, w: nat)
    ensures
        all_hex_digits(hex_w(n, w)),
    decreases w,
{
    if w > 0 {
        lemma_hex_w_digits(n / 16, (w - 1) as nat);
        let s = hex_w(n, w);
        let pre = hex_w(n / 16, (w - 1) as nat);
        assert(is_hex_digit(hex_digit_char((n % 16) as int)));
        assert forall|i: int| 0 <= i < s.len() implies is_hex_digit(#[trigger] s[i]) by {
            if i < pre.len() {
                assert(s[i] == pre[i]);
            }
        }
    }
}

pub proof fn lemma_hex_roundtrip(n: nat, w: nat)
    requires
        n < pow16(w),
    ensures
        hex_val(hex_w(n, w)) == n,
    decreases w,
{
    if w == 0 {
        assert(n == 0);
    } else {
        assert(n / 16 < pow16((w - 1) as nat)) by (nonlinear_arith)
            requires
                n < 16 * pow16((w - 1) as nat),
        ;
        lemma_hex_roundtrip(n / 16, (w - 1) as nat);
        lemma_hex_w_len(n / 16, (w - 1) as nat);
        let s = hex_w(n, w);
        assert(s.last() == hex_digit_char((n % 16) as int));
        assert(s.drop_last() =~= hex_w(n / 16, (w - 1) as nat));
        assert(hex_digit_val(hex_digit_char((n % 16) as int)) == n % 16);
        assert(n % 16 + 16 * (n / 16) == n);
    }
}

/// A character sequence short enough for a text length prefix.
pub open spec fn str_ok_t(s: Seq<char>) -> bool {
    s.len() < pow16(16)
}

/// Text encoding of a string: 16 hexadecimal digits of the character count,
/// then the characters themselves, verbatim.
pub open spec fn enc_str_t(s: Seq<char>) -> Seq<char> {
    hex_w(s.len(), 16) + s
}

pub open spec fn enc_op_t(op: Op) -> char {
    match op {
        Op::Eq => '=',
        Op::Neq => '!',
        Op::GT => '>',
        Op::LT => '<',
        Op::GE => 'G',
        Op::LE => 'L',
    }
}

pub open spec fn enc_pred_t(p: PredView) -> Seq<char> {
    match p {
        PredView::Id => seq!['i'],
        PredView::Name => seq!['n'],
        PredView::Attr(a) => seq!['a'] + enc_str_t(a),
        PredView::Geom(g) => seq!['g'] + enc_str_t(g),
    }
}

pub open spec fn enc_map_t(m: MapState) -> char {
    match m {
        MapState::Unmapped => 'u',
        MapState::Viewable => 'v',
        MapState::Unviewable => 'w',
    }
}

pub open spec fn enc_matcher_t(m: MatchView) -> Seq<char> {
    match m {
        MatchView::IntegralValue(v) => seq!['#'] + hex_w((v as u16) as nat, 4),
        MatchView::BoolValue(b) => seq![
            'b',
            if b {
                '1'
            } else {
                '0'
            },
        ],
        MatchView::MapStateValue(ms) => seq!['m', enc_map_t(ms)],
        MatchView::Wildcard(s) => seq!['s'] + enc_str_t(s),
    }
}

/// Text encoding of a rule tree: a tag character, then the payload; lists
/// carry a 16-digit hexadecimal child count.
pub open spec fn enc_rule_t(r: RuleView) -> Seq<char>
    decreases r,
{
    match r {
        RuleView::Adhoc => seq!['@'],
        RuleView::ClientsOnly => seq!['c'],
        RuleView::Single { pred, op, matcher } => seq!['s'] + enc_pred_t(pred) + seq![
            enc_op_t(op),
        ] + enc_matcher_t(matcher),
        RuleView::All(cs) => seq!['A'] + hex_w(cs.len(), 16) + enc_rules_t(cs),
        RuleView::Any(cs) => seq!['O'] + hex_w(cs.len(), 16) + enc_rules_t(cs),
        RuleView::Not(b) => seq!['N'] + enc_rule_t(*b),
    }
}

pub open spec fn enc_rules_t(s: Seq<RuleView>) -> Seq<char>
    decreases s,
{
    if s.len() == 0 {
        Seq::empty()
    } else {
        enc_rule_t(s[0]) + enc_rules_t(s.skip(1))
    }
}

pub open spec fn enc_action_t(a: Action) -> char {
    match a {
        Action::FilterOut => 'F',
        Action::Pin => 'P',
    }
}

pub open spec fn enc_item_t(it: ItemView) -> Seq<char> {
    seq![enc_action_t(it.action)] + enc_rule_t(it.rule)
}

pub open spec fn enc_items_list_t(s: Seq<ItemView>) -> Seq<char>
    decreases s,
{
    if s.len() == 0 {
        Seq::empty()
    } else {
        enc_item_t(s[0]) + enc_items_list_t(s.skip(1))
    }
}

/// Text encoding of a statement list: a 16-digit hexadecimal count, then the
/// items.
pub open spec fn enc_items_t(s: Seq<ItemView>) -> Seq<char> {
    hex_w(s.len(), 16) + enc_items_list_t(s)
}

/// All strings and list lengths of the rule fit the text length prefixes.
pub open spec fn rule_bounded_t(r: RuleView) -> bool
    decreases r,
{
    match r {
        RuleView::Adhoc => true,
        RuleView::ClientsOnly => true,
        RuleView::Single { pred, op, matcher } => {
            let p_ok = match pred {
                PredView::Attr(a) => str_ok_t(a),
                PredView::Geom(g) => str_ok_t(g),
                _ => true,
            };
            let m_ok = match matcher {
                MatchView::Wildcard(s) => str_ok_t(s),
                _ => true,
            };
            p_ok && m_ok
        },
        RuleView::All(cs) => cs.len() < pow16(16) && rules_bounded_t(cs),
        RuleView::Any(cs) => cs.len() < pow16(16) && rules_bounded_t(cs),
        RuleView::Not(b) => rule_bounded_t(*b),
    }
}

pub open spec fn rules_bounded_t(s: Seq<RuleView>) -> bool
    decreases s,
{
    if s.len() == 0 {
        true
    } else {
        rule_bounded_t(s[0]) && rules_bounded_t(s.skip(1))
    }
}

pub open spec fn items_bounded_t(s: Seq<ItemView>) -> bool
    decreases s,
{
    if s.len() == 0 {
        true
    } else {
        rule_bounded_t(s[0].rule) && items_bounded_t(s.skip(1))
    }
}

// Text decoding, remainder style.

pub open spec fn dec_hex16_t(cs: Seq<char>) -> Option<(int, Seq<char>)> {
    if cs.len() >= 16 && all_hex_digits(cs.take(16)) {
        Some((hex_val(cs.take(16)), cs.skip(16)))
    } else {
        None
    }
}

pub open spec fn dec_str_t(cs: Seq<char>) -> Option<(Seq<char>, Seq<char>)> {
    match dec_hex16_t(cs) {
        None => None,
        Some((n, rem)) => {
            if 0 <= n <= rem.len() {
                Some((rem.take(n), rem.skip(n)))
            } else {
                None
            }
        },
    }
}

pub open spec fn dec_op_t(c: char) -> Option<Op> {
    if c == '=' {
        Some(Op::Eq)
    } else if c == '!' {
        Some(Op::Neq)
    } else if c == '>' {
        Some(Op::GT)
    } else if c == '<' {
        Some(Op::LT)
    } else if c == 'G' {
        Some(Op::GE)
    } else if c == 'L' {
        Some(Op::LE)
    } else {
        None
    }
}

pub open spec fn dec_pred_t(cs: Seq<char>) -> Option<(PredView, Seq<char>)> {
    if cs.len() == 0 {
        None
    } else if cs[0] == 'i' {
        Some((PredView::Id, cs.skip(1)))
    } else if cs[0] == 'n' {
        Some((PredView::Name, cs.skip(1)))
    } else if cs[0] == 'a' {
        match dec_str_t(cs.skip(1)) {
            Some((a, rem)) => Some((PredView::Attr(a), rem)),
            None => None,
        }
    } else if cs[0] == 'g' {
        match dec_str_t(cs.skip(1)) {
            Some((g, rem)) => Some((PredView::Geom(g), rem)),
            None => None,
        }
    } else {
        None
    }
}

pub open spec fn dec_matcher_t(cs: Seq<char>) -> Option<(MatchView, Seq<char>)> {
    if cs.len() == 0 {
        None
    } else if cs[0] == '#' {
        if cs.len() >= 5 && all_hex_digits(cs.subrange(1, 5)) {
            Some(
                (
                    MatchView::IntegralValue((hex_val(cs.subrange(1, 5)) as u16) as i16),
                    cs.skip(5),
                ),
            )
        } else {
            None
        }
    } else if cs[0] == 'b' {
        if cs.len() >= 2 && (cs[1] == '0' || cs[1] == '1') {
            Some((MatchView::BoolValue(cs[1] == '1'), cs.skip(2)))
        } else {
            None
        }
    } else if cs[0] == 'm' {
        if cs.len() >= 2 && (cs[1] == 'u' || cs[1] == 'v' || cs[1] == 'w') {
            let ms = if cs[1] == 'u' {
                MapState::Unmapped
            } else if cs[1] == 'v' {
                MapState::Viewable
            } else {
                MapState::Unviewable
            };
            Some((MatchView::MapStateValue(ms), cs.skip(2)))
        } else {
            None
        }
    } else if cs[0] == 's' {
        match dec_str_t(cs.skip(1)) {
            Some((s, rem)) => Some((MatchView::Wildcard(s), rem)),
            None => None,
        }
    } else {
        None
    }
}

pub open spec fn dec_rule_t(cs: Seq<char>) -> Option<(RuleView, Seq<char>)>
    decreases cs.len(), 2int, 0int,
{
    if cs.len() == 0 {
        None
    } else if cs[0] == '@' {
        Some((RuleView::Adhoc, cs.skip(1)))
    } else if cs[0] == 'c' {
        Some((RuleView::ClientsOnly, cs.skip(1)))
    } else if cs[0] == 's' {
        match dec_pred_t(cs.skip(1)) {
            None => None,
            Some((pred, rem)) => {
                if rem.len() >= 1 {
                    match dec_op_t(rem[0]) {
                        None => None,
                        Some(op) => {
                            match dec_matcher_t(rem.skip(1)) {
                                None => None,
                                Some((m, rem2)) => Some(
                                    (RuleView::Single { pred, op, matcher: m }, rem2),
                                ),
                            }
                        },
                    }
                } else {
                    None
                }
            },
        }
    } else if cs[0] == 'A' || cs[0] == 'O' {
        match dec_hex16_t(cs.skip(1)) {
            None => None,
            Some((n, rem)) => {
                if n >= 0 {
                    match dec_rules_t(rem, n as nat) {
                        None => None,
                        Some((rules, rem2)) => {
                            if cs[0] == 'A' {
                                Some((RuleView::All(rules), rem2))
                            } else {
                                Some((RuleView::Any(rules), rem2))
                            }
                        },
                    }
                } else {
                    None
                }
            },
        }
    } else if cs[0] == 'N' {
        match dec_rule_t(cs.skip(1)) {
            Some((r, rem)) => Some((RuleView::Not(Box::new(r)), rem)),
            None => None,
        }
    } else {
        None
    }
}

pub open spec fn dec_rules_t(cs: Seq<char>, count: nat) -> Option<(Seq<RuleView>, Seq<char>)>
    decreases cs.len(), 2int, 1int + count,
{
    if count == 0 {
        Some((Seq::empty(), cs))
    } else {
        match dec_rule_t(cs) {
            None => None,
            Some((r, rem)) => {
                if rem.len() >= cs.len() {
                    None
                } else {
                    match dec_rules_t(rem, (count - 1) as nat) {
                        None => None,
                        Some((more, rem2)) => Some((seq![r] + more, rem2)),
                    }
                }
            },
        }
    }
}

pub open spec fn dec_item_t(cs: Seq<char>) -> Option<(ItemView, Seq<char>)> {
    if cs.len() >= 1 && (cs[0] == 'F' || cs[0] == 'P') {
        let action = if cs[0] == 'F' {
            Action::FilterOut
        } else {
            Action::Pin
        };
        match dec_rule_t(cs.skip(1)) {
            Some((r, rem)) => Some((ItemView { action, rule: r }, rem)),
            None => None,
        }
    } else {
        None
    }
}

pub open spec fn dec_items_list_t(cs: Seq<char>, count: nat) -> Option<(Seq<ItemView>, Seq<char>)>
    decreases cs.len(), count,
{
    if count == 0 {
        Some((Seq::empty(), cs))
    } else {
        match dec_item_t(cs) {
            None => None,
            Some((it, rem)) => {
                if rem.len() >= cs.len() {
                    None
                } else {
                    match dec_items_list_t(rem, (count - 1) as nat) {
                        None => None,
                        Some((more, rem2)) => Some((seq![it] + more, rem2)),
                    }
                }
            },
        }
    }
}

/// Text decoding of a statement list.
pub open spec fn dec_items_t(cs: Seq<char>) -> Option<(Seq<ItemView>, Seq<char>)> {
    match dec_hex16_t(cs) {
        None => None,
        Some((n, rem)) => {
            if n >= 0 {
                dec_items_list_t(rem, n as nat)
            } else {
                None
            }
        },
    }
}

pub proof fn lemma_dec_hex16_t(n: nat, rest: Seq<char>)
    requires
        n < pow16(16),
    ensures
        dec_hex16_t(hex_w(n, 16) + rest) == Some((n as int, rest)),
{
    lemma_hex_w_len(n, 16);
    lemma_hex_w_digits(n, 16);
    lemma_hex_roundtrip(n, 16);
    let cs = hex_w(n, 16) + rest;
    assert(cs.take(16) =~= hex_w(n, 16));
    assert(cs.skip(16) =~= rest);
}

pub proof fn lemma_str_rt_t(s: Seq<char>, rest: Seq<char>)
    requires
        str_ok_t(s),
    ensures
        dec_str_t(enc_str_t(s) + rest) == Some((s, rest)),
{
    assert(enc_str_t(s) + rest =~= hex_w(s.len(), 16) + (s + rest));
    lemma_dec_hex16_t(s.len(), s + rest);
    assert((s + rest).take(s.len() as int) =~= s);
    assert((s + rest).skip(s.len() as int) =~= rest);
}

pub proof fn lemma_pred_rt_t(p: PredView, rest: Seq<char>)
    requires
        match p {
            PredView::Attr(a) => str_ok_t(a),
            PredView::Geom(g) => str_ok_t(g),
            _ => true,
        },
    ensures
        dec_pred_t(enc_pred_t(p) + rest) == Some((p, rest)),
{
    let cs = enc_pred_t(p) + rest;
    match p {
        PredView::Id => {
            assert(cs.skip(1) =~= rest);
        },
        PredView::Name => {
            assert(cs.skip(1) =~= rest);
        },
        PredView::Attr(a) => {
            assert(cs.skip(1) =~= enc_str_t(a) + rest);
            lemma_str_rt_t(a, rest);
        },
        PredView::Geom(g) => {
            assert(cs.skip(1) =~= enc_str_t(g) + rest);
            lemma_str_rt_t(g, rest);
        },
    }
}

pub proof fn lemma_matcher_rt_t(m: MatchView, rest: Seq<char>)
    requires
        match m {
            MatchView::Wildcard(s) => str_ok_t(s),
            _ => true,
        },
    ensures
        dec_matcher_t(enc_matcher_t(m) + rest) == Some((m, rest)),
{
    let cs = enc_matcher_t(m) + rest;
    match m {
        MatchView::IntegralValue(v) => {
            let u = (v as u16) as nat;
            assert(u < pow16(4)) by {
                reveal_with_fuel(pow16, 5);
            }
            lemma_hex_w_len(u, 4);
            lemma_hex_w_digits(u, 4);
            lemma_hex_roundtrip(u, 4);
            assert(cs.subrange(1, 5) =~= hex_w(u, 4));
            assert(cs.skip(5) =~= rest);
            assert(((v as u16) as i16) == v) by (bit_vector);
        },
        MatchView::BoolValue(b) => {
            assert(cs.skip(2) =~= rest);
        },
        MatchView::MapStateValue(ms) => {
            assert(cs.skip(2) =~= rest);
        },
        MatchView::Wildcard(s) => {
            assert(cs.skip(1) =~= enc_str_t(s) + rest);
            lemma_str_rt_t(s, rest);
        },
    }
}

#[verifier::rlimit(60)]
pub proof fn lemma_rule_rt_t(r: RuleView, rest: Seq<char>)
    requires
        rule_bounded_t(r),
    ensures
        dec_rule_t(enc_rule_t(r) + rest) == Some((r, rest)),
    decreases r, 0int,
{
    let cs = enc_rule_t(r) + rest;
    match r {
        RuleView::Adhoc => {
            assert(cs.skip(1) =~= rest);
        },
        RuleView::ClientsOnly => {
            assert(cs.skip(1) =~= rest);
        },
        RuleView::Single { pred, op, matcher } => {
            let tail1 = seq![enc_op_t(op)] + enc_matcher_t(matcher) + rest;
            assert(cs.skip(1) =~= enc_pred_t(pred) + tail1);
            lemma_pred_rt_t(pred, tail1);
            assert(tail1[0] == enc_op_t(op));
            assert(dec_op_t(enc_op_t(op)) == Some(op));
            assert(tail1.skip(1) =~= enc_matcher_t(matcher) + rest);
            lemma_matcher_rt_t(matcher, rest);
        },
        RuleView::All(cs2) => {
            assert(cs[0] == 'A');
            assert(cs.skip(1) =~= hex_w(cs2.len(), 16) + (enc_rules_t(cs2) + rest));
            lemma_dec_hex16_t(cs2.len(), enc_rules_t(cs2) + rest);
            lemma_rules_rt_t(cs2, rest);
        },
        RuleView::Any(cs2) => {
            assert(cs[0] == 'O');
            assert(cs.skip(1) =~= hex_w(cs2.len(), 16) + (enc_rules_t(cs2) + rest));
            lemma_dec_hex16_t(cs2.len(), enc_rules_t(cs2) + rest);
            lemma_rules_rt_t(cs2, rest);
        },
        RuleView::Not(b) => {
            assert(cs.skip(1) =~= enc_rule_t(*b) + rest);
            lemma_rule_rt_t(*b, rest);
        },
    }
}

pub proof fn lemma_rules_rt_t(cs: Seq<RuleView>, rest: Seq<char>)
    requires
        rules_bounded_t(cs),
    ensures
        dec_rules_t(enc_rules_t(cs) + rest, cs.len()) == Some((cs, rest)),
    decreases cs, 1int,
{
    if cs.len() == 0 {
        assert(enc_rules_t(cs) + rest =~= rest);
    } else {
        let head = enc_rule_t(cs[0]);
        let tail = enc_rules_t(cs.skip(1)) + rest;
        let bs = enc_rules_t(cs) + rest;
        assert(bs =~= head + tail);
        lemma_rule_rt_t(cs[0], tail);
        assert(enc_rule_t(cs[0]).len() >= 1);
        assert(tail.len() < bs.len());
        lemma_rules_rt_t(cs.skip(1), rest);
        assert(seq![cs[0]] + cs.skip(1) =~= cs);
    }
}

pub proof fn lemma_item_rt_t(it: ItemView, rest: Seq<char>)
    requires
        rule_bounded_t(it.rule),
    ensures
        dec_item_t(enc_item_t(it) + rest) == Some((it, rest)),
{
    let cs = enc_item_t(it) + rest;
    assert(cs.skip(1) =~= enc_rule_t(it.rule) + rest);
    lemma_rule_rt_t(it.rule, rest);
}

pub proof fn lemma_items_list_rt_t(s: Seq<ItemView>, rest: Seq<char>)
    requires
        items_bounded_t(s),
    ensures
        dec_items_list_t(enc_items_list_t(s) + rest, s.len()) == Some((s, rest)),
    decreases s.len(),
{
    if s.len() == 0 {
        assert(enc_items_list_t(s) + rest =~= rest);
    } else {
        let head = enc_item_t(s[0]);
        let tail = enc_items_list_t(s.skip(1)) + rest;
        let bs = enc_items_list_t(s) + rest;
        assert(bs =~= head + tail);
        lemma_item_rt_t(s[0], tail);
        assert(enc_rule_t(s[0].rule).len() >= 1);
        assert(tail.len() < bs.len());
        lemma_items_list_rt_t(s.skip(1), rest);
        assert(seq![s[0]] + s.skip(1) =~= s);
    }
}

/// Law: decoding the text encoding of any bounded statement list yields that
/// list back, with nothing left over.
pub proof fn lemma_text_round_trip(s: Seq<ItemView>)
    requires
        items_bounded_t(s),
        s.len() < pow16(16),
    ensures
        dec_items_t(enc_items_t(s)) == Some((s, Seq::<char>::empty())),
{
    let cs = enc_items_t(s);
    assert(cs =~= hex_w(s.len(), 16) + (enc_items_list_t(s) + Seq::<char>::empty()));
    lemma_dec_hex16_t(s.len(), enc_items_list_t(s) + Seq::<char>::empty());
    lemma_items_list_rt_t(s, Seq::<char>::empty());
}

} // verus!

// ---------------------------------------------------------------------------
// Executable encoders.
// ---------------------------------------------------------------------------

verus! {

use vstd::string::StrSliceExecFns;
use crate::text::{chars_to_string, str_chars};

pub proof fn lemma_enc_rules_b_snoc(s: Seq<RuleView>, x: RuleView)
    ensures
        enc_rules_b(s.push(x)) == enc_rules_b(s) + enc_rule_b(x),
        rules_bounded(s.push(x)) == (rules_bounded(s) && rule_bounded(x)),
        enc_rules_t(s.push(x)) == enc_rules_t(s) + enc_rule_t(x),
        rules_bounded_t(s.push(x)) == (rules_bounded_t(s) && rule_bounded_t(x)),
    decreases s.len(),
{
    if s.len() == 0 {
        assert(s =~= Seq::<RuleView>::empty());
        assert(s.push(x)[0] == x);
        assert(s.push(x).skip(1) =~= Seq::<RuleView>::empty());
        assert(enc_rules_b(Seq::<RuleView>::empty()) == Seq::<u8>::empty());
        assert(enc_rules_t(Seq::<RuleView>::empty()) == Seq::<char>::empty());
        assert(rules_bounded(Seq::<RuleView>::empty()));
        assert(rules_bounded_t(Seq::<RuleView>::empty()));
        assert(enc_rules_b(s.push(x)) =~= enc_rules_b(s) + enc_rule_b(x));
        assert(enc_rules_t(s.push(x)) =~= enc_rules_t(s) + enc_rule_t(x));
    } else {
        assert(s.push(x).skip(1) =~= s.skip(1).push(x));
        assert(s.push(x)[0] == s[0]);
        lemma_enc_rules_b_snoc(s.skip(1), x);
        assert(enc_rules_b(s.push(x)) =~= enc_rules_b(s) + enc_rule_b(x));
        assert(enc_rules_t(s.push(x)) =~= enc_rules_t(s) + enc_rule_t(x));
    }
}

pub proof fn lemma_enc_items_snoc(s: Seq<ItemView>, x: ItemView)
    ensures
        enc_items_list_b(s.push(x)) == enc_items_list_b(s) + enc_item_b(x),
        items_bounded(s.push(x)) == (items_bounded(s) && rule_bounded(x.rule)),
        enc_items_list_t(s.push(x)) == enc_items_list_t(s) + enc_item_t(x),
        items_bounded_t(s.push(x)) == (items_bounded_t(s) && rule_bounded_t(x.rule)),
    decreases s.len(),
{
    if s.len() == 0 {
        assert(s =~= Seq::<ItemView>::empty());
        assert(s.push(x)[0] == x);
        assert(s.push(x).skip(1) =~= Seq::<ItemView>::empty());
        assert(enc_items_list_b(Seq::<ItemView>::empty()) == Seq::<u8>::empty());
        assert(enc_items_list_t(Seq::<ItemView>::empty()) == Seq::<char>::empty());
        assert(items_bounded(Seq::<ItemView>::empty()));
        assert(items_bounded_t(Seq::<ItemView>::empty()));
        assert(enc_items_list_b(s.push(x)) =~= enc_items_list_b(s) + enc_item_b(x));
        assert(enc_items_list_t(s.push(x)) =~= enc_items_list_t(s) + enc_item_t(x));
    } else {
        assert(s.push(x).skip(1) =~= s.skip(1).push(x));
        assert(s.push(x)[0] == s[0]);
        lemma_enc_items_snoc(s.skip(1), x);
        assert(enc_items_list_b(s.push(x)) =~= enc_items_list_b(s) + enc_item_b(x));
        assert(enc_items_list_t(s.push(x)) =~= enc_items_list_t(s) + enc_item_t(x));
    }
}

/// Append the 8 little-endian bytes of `x`.
fn push_u64_le(out: &mut Vec<u8>, x: u64)
    ensures
        final(out)@ == old(out)@ + le_bytes(x as nat, 8),
{
    proof {
        reveal_with_fuel(le_bytes, 9);
    }
    let b0 = (x % 256) as u8;
    let x1 = x / 256;
    let b1 = (x1 % 256) as u8;
    let x2 = x1 / 256;
    let b2 = (x2 % 256) as u8;
    let x3 = x2 / 256;
    let b3 = (x3 % 256) as u8;
    let x4 = x3 / 256;
    let b4 = (x4 % 256) as u8;
    let x5 = x4 / 256;
    let b5 = (x5 % 256) as u8;
    let x6 = x5 / 256;
    let b6 = (x6 % 256) as u8;
    let x7 = x6 / 256;
    let b7 = (x7 % 256) as u8;
    out.push(b0);
    out.push(b1);
    out.push(b2);
    out.push(b3);
    out.push(b4);
    out.push(b5);
    out.push(b6);
    out.push(b7);
    proof {
        assert(out@ =~= old(out)@ + le_bytes(x as nat, 8));
    }
}

/// Append all bytes of `bs`.
fn push_all_bytes(out: &mut Vec<u8>, bs: &Vec<u8>)
    ensures
        final(out)@ == old(out)@ + bs@,
{
    let mut i: usize = 0;
    while i < bs.len()
        invariant
            0 <= i <= bs.len(),
            out@ == old(out)@ + bs@.take(i as int),
        decreases bs.len() - i,
    {
        out.push(bs[i]);
        proof {
            assert((old(out)@ + bs@.take(i as int)).push(bs@[i as int]) =~= old(out)@ + bs@.take(
                i as int + 1,
            ));
        }
        i = i + 1;
    }
    proof {
        assert(old(out)@ + bs@.take(bs@.len() as int) =~= old(out)@ + bs@);
    }
}

/// Append the binary encoding of a string.
fn push_str_b(out: &mut Vec<u8>, s: &String)
    ensures
        final(out)@ == old(out)@ + enc_str_b(s@),
        str_ok(s@),
{
    let bytes = s.as_str().as_bytes_vec();
    let n = bytes.len();
    proof {
        reveal_with_fuel(pow256, 9);
    }
    push_u64_le(out, n as u64);
    push_all_bytes(out, &bytes);
    proof {
        assert(out@ =~= old(out)@ + enc_str_b(s@));
    }
}

/// Append the binary encoding of a rule tree.

/// Append the binary encoding of a predicate target.
fn push_pred_b(out: &mut Vec<u8>, pred: &Predicate)
    ensures
        final(out)@ == old(out)@ + enc_pred_b(pred@),
        match pred@ {
            PredView::Attr(a) => str_ok(a),
            PredView::Geom(g) => str_ok(g),
            _ => true,
        },
{
    match pred {
        Predicate::Id => {
            out.push(0u8);
        },
        Predicate::Name => {
            out.push(1u8);
        },
        Predicate::Attr(a) => {
            out.push(2u8);
            push_str_b(out, a);
        },
        Predicate::Geom(g) => {
            out.push(3u8);
            push_str_b(out, g);
        },
    }
    proof {
        assert(out@ =~= old(out)@ + enc_pred_b(pred@));
    }
}

/// Append the binary encoding of a matcher.
fn push_matcher_b(out: &mut Vec<u8>, matcher: &Matcher)
    ensures
        final(out)@ == old(out)@ + enc_matcher_b(matcher@),
        match matcher@ {
            MatchView::Wildcard(w) => str_ok(w),
            _ => true,
        },
{
    match matcher {
        Matcher::IntegralValue(v) => {
            out.push(0u8);
            let u = *v as u16;
            proof {
                reveal_with_fuel(le_bytes, 3);
            }
            out.push((u % 256) as u8);
            out.push((u / 256) as u8);
        },
        Matcher::BoolValue(b) => {
            out.push(1u8);
            out.push(
                if *b {
                    1u8
                } else {
                    0u8
                },
            );
        },
        Matcher::MapStateValue(ms) => {
            out.push(2u8);
            let msb: u8 = match ms {
                MapState::Unmapped => 0,
                MapState::Viewable => 1,
                MapState::Unviewable => 2,
            };
            out.push(msb);
        },
        Matcher::Wildcard(s) => {
            out.push(3u8);
            push_str_b(out, s);
        },
    }
    proof {
        assert(out@ =~= old(out)@ + enc_matcher_b(matcher@));
    }
}

/// Append the binary encoding of a leaf comparison.
fn push_single_b(out: &mut Vec<u8>, pred: &Predicate, op: Op, matcher: &Matcher)
    ensures
        final(out)@ == old(out)@ + enc_rule_b(
            RuleView::Single { pred: pred@, op, matcher: matcher@ },
        ),
        rule_bounded(RuleView::Single { pred: pred@, op, matcher: matcher@ }),
{
    out.push(2u8);
    push_pred_b(out, pred);
    proof {
        assert(out@ =~= old(out)@ + seq![2u8] + enc_pred_b(pred@));
    }
    let opb: u8 = match op {
        Op::Eq => 0,
        Op::Neq => 1,
        Op::GT => 2,
        Op::LT => 3,
        Op::GE => 4,
        Op::LE => 5,
    };
    out.push(opb);
    proof {
        assert(out@ =~= old(out)@ + seq![2u8] + enc_pred_b(pred@) + seq![enc_op_b(op)]);
    }
    push_matcher_b(out, matcher);
    proof {
        assert(out@ =~= old(out)@ + enc_rule_b(
            RuleView::Single { pred: pred@, op, matcher: matcher@ },
        ));
    }
}

#[verifier::loop_isolation(false)]
#[verifier::rlimit(100)]
fn push_rule_b(out: &mut Vec<u8>, r: &FilterRule)
    ensures
        final(out)@ == old(out)@ + enc_rule_b(rule_view(*r)),
        rule_bounded(rule_view(*r)),
    decreases *r, 0int,
{
    match r {
        FilterRule::Adhoc => {
            out.push(0u8);
            proof {
                assert(out@ =~= old(out)@ + enc_rule_b(rule_view(*r)));
            }
        },
        FilterRule::ClientsOnly => {
            out.push(1u8);
            proof {
                assert(out@ =~= old(out)@ + enc_rule_b(rule_view(*r)));
            }
        },
        FilterRule::Single { pred, op, matcher } => {
            push_single_b(out, pred, *op, matcher);
            proof {
                assert(out@ =~= old(out)@ + enc_rule_b(rule_view(*r)));
            }
        },
        FilterRule::All(cs) | FilterRule::Any(cs) => {
            let is_all = match r {
                FilterRule::All(_) => true,
                _ => false,
            };
            proof {
                if is_all {
                    assert(decreases_to!(*r => (*r)->All_0));
                    assert((*r)->All_0 == *cs);
                } else {
                    assert(decreases_to!(*r => (*r)->Any_0));
                    assert((*r)->Any_0 == *cs);
                }
                assert(decreases_to!(*cs => cs@));
                reveal_with_fuel(pow256, 9);
                lemma_rules_view_index(cs@);
            }
            out.push(
                if is_all {
                    3u8
                } else {
                    4u8
                },
            );
            push_u64_le(out, cs.len() as u64);
            let ghost base = out@;
            let ghost rv = rules_view(cs@);
            let mut i: usize = 0;
            proof {
                assert(rv.take(0) =~= Seq::<RuleView>::empty());
                assert(enc_rules_b(Seq::<RuleView>::empty()) == Seq::<u8>::empty());
                assert(rules_bounded(Seq::<RuleView>::empty()));
                assert(base + enc_rules_b(rv.take(0)) =~= base);
            }
            while i < cs.len()
                invariant
                    0 <= i <= cs.len(),
                    out@ == base + enc_rules_b(rv.take(i as int)),
                    rules_bounded(rv.take(i as int)),
                decreases cs.len() - i,
            {
                proof {
                    assert(decreases_to!(cs@ => cs@[i as int]));
                }
                push_rule_b(out, &cs[i]);
                proof {
                    lemma_enc_rules_b_snoc(rv.take(i as int), rv[i as int]);
                    assert(rv.take(i as int).push(rv[i as int]) =~= rv.take(i as int + 1));
                }
                i = i + 1;
            }
            proof {
                assert(rv.take(cs@.len() as int) =~= rv);
                assert(out@ =~= old(out)@ + enc_rule_b(rule_view(*r)));
            }
        },
        FilterRule::Not(b) => {
            out.push(5u8);
            push_rule_b(out, b);
            proof {
                assert(out@ =~= old(out)@ + enc_rule_b(rule_view(*r)));
            }
        },
    }
}

/// Encode a statement list into the compact binary artifact form.
#[verifier::loop_isolation(false)]
pub fn encode_items_binary(items: &Vec<FilterItem>) -> (out: Vec<u8>)
    ensures
        out@ == enc_items_b(items_view(items@)),
        items_bounded(items_view(items@)),
        items_view(items@).len() < pow256(8),
{
    let ghost ivs = items_view(items@);
    let mut out: Vec<u8> = Vec::new();
    proof {
        reveal_with_fuel(pow256, 9);
    }
    push_u64_le(&mut out, items.len() as u64);
    let ghost base = out@;
    let mut i: usize = 0;
    proof {
        assert(ivs.take(0) =~= Seq::<ItemView>::empty());
        assert(enc_items_list_b(Seq::<ItemView>::empty()) == Seq::<u8>::empty());
        assert(items_bounded(Seq::<ItemView>::empty()));
        assert(base + enc_items_list_b(ivs.take(0)) =~= base);
    }
    while i < items.len()
        invariant
            0 <= i <= items.len(),
            out@ == base + enc_items_list_b(ivs.take(i as int)),
            items_bounded(ivs.take(i as int)),
        decreases items.len() - i,
    {
        let ghost pre = out@;
        out.push(
            match items[i].action {
                Action::FilterOut => 0u8,
                Action::Pin => 1u8,
            },
        );
        push_rule_b(&mut out, &items[i].rule);
        proof {
            assert(ivs[i as int] == items@[i as int]@);
            assert(out@ =~= pre + enc_item_b(ivs[i as int]));
            lemma_enc_items_snoc(ivs.take(i as int), ivs[i as int]);
            assert(ivs.take(i as int).push(ivs[i as int]) =~= ivs.take(i as int + 1));
        }
        i = i + 1;
    }
    proof {
        assert(ivs.take(ivs.len() as int) =~= ivs);
        assert(out@ =~= enc_items_b(ivs));
    }
    out
}

/// Append the fixed-width hexadecimal rendering of `x`.
fn push_hex_w(out: &mut Vec<char>, x: u64, w: usize)
    ensures
        final(out)@ == old(out)@ + hex_w(x as nat, w as nat),
    decreases w,
{
    if w == 0 {
        proof {
            assert(old(out)@ + hex_w(x as nat, 0) =~= old(out)@);
        }
        return;
    }
    push_hex_w(out, x / 16, w - 1);
    let d = (x % 16) as u8;
    let c: char = if d < 10 {
        (48 + d) as char
    } else {
        (87 + d) as char
    };
    out.push(c);
    proof {
        assert(c == hex_digit_char(((x as nat) % 16) as int));
        assert(out@ =~= old(out)@ + hex_w(x as nat, w as nat));
    }
}

/// Append all characters of `cs`.
fn push_all_chars(out: &mut Vec<char>, cs: &Vec<char>)
    ensures
        final(out)@ == old(out)@ + cs@,
{
    let mut i: usize = 0;
    while i < cs.len()
        invariant
            0 <= i <= cs.len(),
            out@ == old(out)@ + cs@.take(i as int),
        decreases cs.len() - i,
    {
        out.push(cs[i]);
        proof {
            assert((old(out)@ + cs@.take(i as int)).push(cs@[i as int]) =~= old(out)@ + cs@.take(
                i as int + 1,
            ));
        }
        i = i + 1;
    }
    proof {
        assert(old(out)@ + cs@.take(cs@.len() as int) =~= old(out)@ + cs@);
    }
}

/// Append the text encoding of a string.
fn push_str_t(out: &mut Vec<char>, s: &String)
    ensures
        final(out)@ == old(out)@ + enc_str_t(s@),
        str_ok_t(s@),
{
    let cs = str_chars(s.as_str());
    let n = cs.len();
    proof {
        reveal_with_fuel(pow16, 17);
    }
    push_hex_w(out, n as u64, 16);
    push_all_chars(out, &cs);
    proof {
        assert(out@ =~= old(out)@ + enc_str_t(s@));
    }
}

/// Append the text encoding of a rule tree.

/// Append the text encoding of a leaf comparison.
#[verifier::rlimit(100)]
fn push_single_t(out: &mut Vec<char>, pred: &Predicate, op: Op, matcher: &Matcher)
    ensures
        final(out)@ == old(out)@ + enc_rule_t(
            RuleView::Single { pred: pred@, op, matcher: matcher@ },
        ),
        rule_bounded_t(RuleView::Single { pred: pred@, op, matcher: matcher@ }),
{
    out.push('s');
    match pred {
        Predicate::Id => {
            out.push('i');
        },
        Predicate::Name => {
            out.push('n');
        },
        Predicate::Attr(a) => {
            out.push('a');
            push_str_t(out, a);
        },
        Predicate::Geom(g) => {
            out.push('g');
            push_str_t(out, g);
        },
    }
    proof {
        assert(out@ =~= old(out)@ + seq!['s'] + enc_pred_t(pred@));
    }
    let opc: char = match op {
        Op::Eq => '=',
        Op::Neq => '!',
        Op::GT => '>',
        Op::LT => '<',
        Op::GE => 'G',
        Op::LE => 'L',
    };
    out.push(opc);
    proof {
        assert(out@ =~= old(out)@ + seq!['s'] + enc_pred_t(pred@) + seq![enc_op_t(op)]);
    }
    match matcher {
        Matcher::IntegralValue(v) => {
            out.push('#');
            push_hex_w(out, (*v as u16) as u64, 4);
        },
        Matcher::BoolValue(b) => {
            out.push('b');
            out.push(
                if *b {
                    '1'
                } else {
                    '0'
                },
            );
        },
        Matcher::MapStateValue(ms) => {
            out.push('m');
            let msc: char = match ms {
                MapState::Unmapped => 'u',
                MapState::Viewable => 'v',
                MapState::Unviewable => 'w',
            };
            out.push(msc);
        },
        Matcher::Wildcard(s) => {
            out.push('s');
            push_str_t(out, s);
        },
    }
    proof {
        assert(out@ =~= old(out)@ + enc_rule_t(
            RuleView::Single { pred: pred@, op, matcher: matcher@ },
        ));
    }
}

#[verifier::loop_isolation(false)]
#[verifier::rlimit(80)]
fn push_rule_t(out: &mut Vec<char>, r: &FilterRule)
    ensures
        final(out)@ == old(out)@ + enc_rule_t(rule_view(*r)),
        rule_bounded_t(rule_view(*r)),
    decreases *r, 0int,
{
    match r {
        FilterRule::Adhoc => {
            out.push('@');
            proof {
                assert(out@ =~= old(out)@ + enc_rule_t(rule_view(*r)));
            }
        },
        FilterRule::ClientsOnly => {
            out.push('c');
            proof {
                assert(out@ =~= old(out)@ + enc_rule_t(rule_view(*r)));
            }
        },
        FilterRule::Single { pred, op, matcher } => {
            push_single_t(out, pred, *op, matcher);
            proof {
                assert(out@ =~= old(out)@ + enc_rule_t(rule_view(*r)));
            }
        },
        FilterRule::All(cs) | FilterRule::Any(cs) => {
            let is_all = match r {
                FilterRule::All(_) => true,
                _ => false,
            };
            proof {
                if is_all {
                    assert(decreases_to!(*r => (*r)->All_0));
                    assert((*r)->All_0 == *cs);
                } else {
                    assert(decreases_to!(*r => (*r)->Any_0));
                    assert((*r)->Any_0 == *cs);
                }
                assert(decreases_to!(*cs => cs@));
                reveal_with_fuel(pow16, 17);
                lemma_rules_view_index(cs@);
            }
            out.push(
                if is_all {
                    'A'
                } else {
                    'O'
                },
            );
            push_hex_w(out, cs.len() as u64, 16);
            let ghost base = out@;
            let ghost rv = rules_view(cs@);
            let mut i: usize = 0;
            proof {
                assert(rv.take(0) =~= Seq::<RuleView>::empty());
                assert(enc_rules_t(Seq::<RuleView>::empty()) == Seq::<char>::empty());
                assert(rules_bounded_t(Seq::<RuleView>::empty()));
                assert(base + enc_rules_t(rv.take(0)) =~= base);
            }
            while i < cs.len()
                invariant
                    0 <= i <= cs.len(),
                    out@ == base + enc_rules_t(rv.take(i as int)),
                    rules_bounded_t(rv.take(i as int)),
                decreases cs.len() - i,
            {
                proof {
                    assert(decreases_to!(cs@ => cs@[i as int]));
                }
                push_rule_t(out, &cs[i]);
                proof {
                    lemma_enc_rules_b_snoc(rv.take(i as int), rv[i as int]);
                    assert(rv.take(i as int).push(rv[i as int]) =~= rv.take(i as int + 1));
                }
                i = i + 1;
            }
            proof {
                assert(rv.take(cs@.len() as int) =~= rv);
                assert(out@ =~= old(out)@ + enc_rule_t(rule_view(*r)));
            }
        },
        FilterRule::Not(b) => {
            out.push('N');
            push_rule_t(out, b);
            proof {
                assert(out@ =~= old(out)@ + enc_rule_t(rule_view(*r)));
            }
        },
    }
}

/// Encode a statement list into the self-describing text artifact form.
#[verifier::loop_isolation(false)]
pub fn encode_items_text(items: &Vec<FilterItem>) -> (out: String)
    ensures
        out@ == enc_items_t(items_view(items@)),
        items_bounded_t(items_view(items@)),
        items_view(items@).len() < pow16(16),
{
    let ghost ivs = items_view(items@);
    let mut out: Vec<char> = Vec::new();
    proof {
        reveal_with_fuel(pow16, 17);
    }
    push_hex_w(&mut out, items.len() as u64, 16);
    let ghost base = out@;
    let mut i: usize = 0;
    proof {
        assert(ivs.take(0) =~= Seq::<ItemView>::empty());
        assert(enc_items_list_t(Seq::<ItemView>::empty()) == Seq::<char>::empty());
        assert(items_bounded_t(Seq::<ItemView>::empty()));
        assert(base + enc_items_list_t(ivs.take(0)) =~= base);
    }
    while i < items.len()
        invariant
            0 <= i <= items.len(),
            out@ == base + enc_items_list_t(ivs.take(i as int)),
            items_bounded_t(ivs.take(i as int)),
        decreases items.len() - i,
    {
        let ghost pre = out@;
        out.push(
            match items[i].action {
                Action::FilterOut => 'F',
                Action::Pin => 'P',
            },
        );
        push_rule_t(&mut out, &items[i].rule);
        proof {
            assert(ivs[i as int] == items@[i as int]@);
            assert(out@ =~= pre + enc_item_t(ivs[i as int]));
            lemma_enc_items_snoc(ivs.take(i as int), ivs[i as int]);
            assert(ivs.take(i as int).push(ivs[i as int]) =~= ivs.take(i as int + 1));
        }
        i = i + 1;
    }
    proof {
        assert(ivs.take(ivs.len() as int) =~= ivs);
        assert(out@ =~= enc_items_t(ivs));
    }
    chars_to_string(&out)
}

} // verus!

// ---------------------------------------------------------------------------
// Executable decoders.
// ---------------------------------------------------------------------------

verus! {

/// Relies on `String::from_utf8`: builds the string held by a UTF-8 byte
/// sequence, and errs exactly on bytes that are not valid UTF-8.
#[verifier::external_body]
fn bytes_to_string(v: Vec<u8>) -> (r: Option<String>)
    ensures
        r is Some <==> valid_utf8(v@),
        r matches Some(s) ==> encode_utf8(s@) == v@,
{
    match String::from_utf8(v) {
        Ok(s) => Some(s),
        Err(_) => None,
    }
}

/// Copy the bytes `bs[from..to]`.
fn copy_bytes(bs: &Vec<u8>, from: usize, to: usize) -> (r: Vec<u8>)
    requires
        from <= to <= bs.len(),
    ensures
        r@ == bs@.subrange(from as int, to as int),
{
    let mut r: Vec<u8> = Vec::new();
    let mut i: usize = from;
    proof {
        assert(bs@.subrange(from as int, from as int) =~= Seq::<u8>::empty());
    }
    while i < to
        invariant
            from <= i <= to <= bs.len(),
            r@ == bs@.subrange(from as int, i as int),
        decreases to - i,
    {
        r.push(bs[i]);
        proof {
            assert(bs@.subrange(from as int, i as int).push(bs@[i as int]) =~= bs@.subrange(
                from as int,
                i as int + 1,
            ));
        }
        i = i + 1;
    }
    r
}

/// Read an 8-byte little-endian integer at `pos`.
fn read_u64_b(bs: &Vec<u8>, pos: usize) -> (res: Option<(u64, usize)>)
    requires
        pos <= bs.len(),
    ensures
        match dec_u64_b(bs@.skip(pos as int)) {
            Some((n, rem)) => res matches Some((x, p2)) && x as nat == n && pos <= p2 <= bs.len()
                && rem == bs@.skip(p2 as int),
            None => res is None,
        },
{
    if bs.len() - pos < 8 {
        return None;
    }
    let ghost s = bs@.skip(pos as int);
    let ghost t = s.take(8);
    let v7 = bs[pos + 7] as u64;
    let v6 = bs[pos + 6] as u64 + 256 * v7;
    let v5 = bs[pos + 5] as u64 + 256 * v6;
    let v4 = bs[pos + 4] as u64 + 256 * v5;
    let v3 = bs[pos + 3] as u64 + 256 * v4;
    let v2 = bs[pos + 2] as u64 + 256 * v3;
    let v1 = bs[pos + 1] as u64 + 256 * v2;
    let v0 = bs[pos] as u64 + 256 * v1;
    proof {
        reveal_with_fuel(le_val, 10);
        assert(t.skip(1) =~= bs@.subrange(pos as int + 1, pos as int + 8));
        assert(t.skip(1).skip(1) =~= bs@.subrange(pos as int + 2, pos as int + 8));
        assert(t.skip(1).skip(1).skip(1) =~= bs@.subrange(pos as int + 3, pos as int + 8));
        assert(t.skip(1).skip(1).skip(1).skip(1) =~= bs@.subrange(
            pos as int + 4,
            pos as int + 8,
        ));
        assert(t.skip(1).skip(1).skip(1).skip(1).skip(1) =~= bs@.subrange(
            pos as int + 5,
            pos as int + 8,
        ));
        assert(t.skip(1).skip(1).skip(1).skip(1).skip(1).skip(1) =~= bs@.subrange(
            pos as int + 6,
            pos as int + 8,
        ));
        assert(t.skip(1).skip(1).skip(1).skip(1).skip(1).skip(1).skip(1) =~= bs@.subrange(
            pos as int + 7,
            pos as int + 8,
        ));
        assert(t.skip(1).skip(1).skip(1).skip(1).skip(1).skip(1).skip(1).skip(1) =~= Seq::<
            u8,
        >::empty());
        assert(s.skip(8) =~= bs@.skip(pos as int + 8));
    }
    Some((v0, pos + 8))
}

/// Read a length-prefixed UTF-8 string at `pos`.
fn read_str_b(bs: &Vec<u8>, pos: usize) -> (res: Option<(String, usize)>)
    requires
        pos <= bs.len(),
    ensures
        match dec_str_b(bs@.skip(pos as int)) {
            Some((cs, rem)) => res matches Some((x, p2)) && x@ == cs && pos <= p2 <= bs.len()
                && rem == bs@.skip(p2 as int),
            None => res is None,
        },
{
    broadcast use vstd::utf8::encode_utf8_decode_utf8, vstd::utf8::decode_utf8_encode_utf8;

    match read_u64_b(bs, pos) {
        None => None,
        Some((n, p1)) => {
            if n > (bs.len() - p1) as u64 {
                proof {
                    assert(bs@.skip(p1 as int).len() < n);
                }
                return None;
            }
            let nn = n as usize;
            let sub = copy_bytes(bs, p1, p1 + nn);
            proof {
                assert(bs@.skip(p1 as int).take(n as int) =~= sub@);
                assert(bs@.skip(p1 as int).skip(n as int) =~= bs@.skip(p1 as int + nn as int));
            }
            match bytes_to_string(sub) {
                Some(st) => {
                    proof {
                        assert(decode_utf8(encode_utf8(st@)) == st@);
                    }
                    Some((st, p1 + nn))
                },
                None => None,
            }
        },
    }
}

/// Read a predicate target at `pos`.
fn read_pred_b(bs: &Vec<u8>, pos: usize) -> (res: Option<(Predicate, usize)>)
    requires
        pos <= bs.len(),
    ensures
        match dec_pred_b(bs@.skip(pos as int)) {
            Some((pv, rem)) => res matches Some((p, p2)) && p@ == pv && pos <= p2 <= bs.len()
                && rem == bs@.skip(p2 as int),
            None => res is None,
        },
{
    let ghost s = bs@.skip(pos as int);
    if pos == bs.len() {
        return None;
    }
    proof {
        assert(s[0] == bs@[pos as int]);
        assert(s.skip(1) =~= bs@.skip(pos as int + 1));
    }
    let tag = bs[pos];
    if tag == 0 {
        Some((Predicate::Id, pos + 1))
    } else if tag == 1 {
        Some((Predicate::Name, pos + 1))
    } else if tag == 2 {
        match read_str_b(bs, pos + 1) {
            Some((a, p2)) => Some((Predicate::Attr(a), p2)),
            None => None,
        }
    } else if tag == 3 {
        match read_str_b(bs, pos + 1) {
            Some((g, p2)) => Some((Predicate::Geom(g), p2)),
            None => None,
        }
    } else {
        None
    }
}

/// Read a matcher at `pos`.
fn read_matcher_b(bs: &Vec<u8>, pos: usize) -> (res: Option<(Matcher, usize)>)
    requires
        pos <= bs.len(),
    ensures
        match dec_matcher_b(bs@.skip(pos as int)) {
            Some((mv, rem)) => res matches Some((m, p2)) && m@ == mv && pos <= p2 <= bs.len()
                && rem == bs@.skip(p2 as int),
            None => res is None,
        },
{
    let ghost s = bs@.skip(pos as int);
    if pos == bs.len() {
        return None;
    }
    proof {
        assert(s[0] == bs@[pos as int]);
        assert(s.skip(1) =~= bs@.skip(pos as int + 1));
        if pos + 2 <= bs.len() {
            assert(s[1] == bs@[pos as int + 1]);
            assert(s.skip(2) =~= bs@.skip(pos as int + 2));
        }
        if pos + 3 <= bs.len() {
            assert(s.skip(3) =~= bs@.skip(pos as int + 3));
        }
    }
    let tag = bs[pos];
    if tag == 0 {
        if bs.len() - pos < 3 {
            return None;
        }
        let u: u16 = bs[pos + 1] as u16 + 256 * (bs[pos + 2] as u16);
        proof {
            reveal_with_fuel(le_val, 4);
            let t = s.subrange(1, 3);
            assert(t[0] == bs@[pos as int + 1]);
            assert(t.skip(1) =~= bs@.subrange(pos as int + 2, pos as int + 3));
            assert(t.skip(1).skip(1) =~= Seq::<u8>::empty());
        }
        Some((Matcher::IntegralValue(u as i16), pos + 3))
    } else if tag == 1 {
        if bs.len() - pos < 2 {
            return None;
        }
        let b = bs[pos + 1];
        if b == 0 || b == 1 {
            Some((Matcher::BoolValue(b == 1), pos + 2))
        } else {
            None
        }
    } else if tag == 2 {
        if bs.len() - pos < 2 {
            return None;
        }
        let b = bs[pos + 1];
        if b == 0 {
            Some((Matcher::MapStateValue(MapState::Unmapped), pos + 2))
        } else if b == 1 {
            Some((Matcher::MapStateValue(MapState::Viewable), pos + 2))
        } else if b == 2 {
            Some((Matcher::MapStateValue(MapState::Unviewable), pos + 2))
        } else {
            None
        }
    } else if tag == 3 {
        match read_str_b(bs, pos + 1) {
            Some((w, p2)) => Some((Matcher::Wildcard(w), p2)),
            None => None,
        }
    } else {
        None
    }
}

/// Read a rule tree at `pos`.
#[verifier::rlimit(100)]
fn read_rule_b(bs: &Vec<u8>, pos: usize) -> (res: Option<(FilterRule, usize)>)
    requires
        pos <= bs.len(),
    ensures
        match dec_rule_b(bs@.skip(pos as int)) {
            Some((rv, rem)) => res matches Some((r, p2)) && rule_view(r) == rv && pos <= p2
                <= bs.len() && rem == bs@.skip(p2 as int),
            None => res is None,
        },
    decreases bs.len() - pos, 0int,
{
    let ghost s = bs@.skip(pos as int);
    if pos == bs.len() {
        return None;
    }
    proof {
        assert(s[0] == bs@[pos as int]);
        assert(s.skip(1) =~= bs@.skip(pos as int + 1));
    }
    let tag = bs[pos];
    if tag == 0 {
        Some((FilterRule::Adhoc, pos + 1))
    } else if tag == 1 {
        Some((FilterRule::ClientsOnly, pos + 1))
    } else if tag == 2 {
        match read_pred_b(bs, pos + 1) {
            None => None,
            Some((pred, p2)) => {
                let ghost rem = bs@.skip(p2 as int);
                if p2 == bs.len() {
                    return None;
                }
                proof {
                    assert(rem[0] == bs@[p2 as int]);
                    assert(rem.skip(1) =~= bs@.skip(p2 as int + 1));
                }
                let opb = bs[p2];
                let op: Op = if opb == 0 {
                    Op::Eq
                } else if opb == 1 {
                    Op::Neq
                } else if opb == 2 {
                    Op::GT
                } else if opb == 3 {
                    Op::LT
                } else if opb == 4 {
                    Op::GE
                } else if opb == 5 {
                    Op::LE
                } else {
                    return None;
                };
                match read_matcher_b(bs, p2 + 1) {
                    None => None,
                    Some((m, p3)) => Some((FilterRule::Single { pred, op, matcher: m }, p3)),
                }
            },
        }
    } else if tag == 3 || tag == 4 {
        if bs.len() - pos < 9 {
            proof {
                assert(s.len() < 9);
            }
            return None;
        }
        proof {
            assert(s.skip(1).take(8) =~= s.subrange(1, 9));
            assert(s.skip(1).skip(8) =~= bs@.skip(pos as int + 9));
            assert(s.skip(9) =~= bs@.skip(pos as int + 9));
        }
        match read_u64_b(bs, pos + 1) {
            None => None,
            Some((n, p2)) => {
                match read_rules_b(bs, p2, n) {
                    None => None,
                    Some((children, p3)) => {
                        if tag == 3 {
                            Some((FilterRule::All(children), p3))
                        } else {
                            Some((FilterRule::Any(children), p3))
                        }
                    },
                }
            },
        }
    } else if tag == 5 {
        match read_rule_b(bs, pos + 1) {
            Some((r, p2)) => Some((FilterRule::Not(Box::new(r)), p2)),
            None => None,
        }
    } else {
        None
    }
}

/// Read `count` consecutive rule trees at `pos`.
fn read_rules_b(bs: &Vec<u8>, pos: usize, count: u64) -> (res: Option<(Vec<FilterRule>, usize)>)
    requires
        pos <= bs.len(),
    ensures
        match dec_rules_b(bs@.skip(pos as int), count as nat) {
            Some((rvs, rem)) => res matches Some((rs, p2)) && rules_view(rs@) == rvs && pos <= p2
                <= bs.len() && rem == bs@.skip(p2 as int),
            None => res is None,
        },
    decreases bs.len() - pos, 1int + count,
{
    if count == 0 {
        let rs: Vec<FilterRule> = Vec::new();
        proof {
            assert(rules_view(rs@) =~= Seq::<RuleView>::empty());
        }
        return Some((rs, pos));
    }
    match read_rule_b(bs, pos) {
        None => None,
        Some((r, p2)) => {
            if p2 <= pos {
                proof {
                    assert(bs@.skip(p2 as int).len() >= bs@.skip(pos as int).len());
                }
                return None;
            }
            proof {
                assert(bs@.skip(p2 as int).len() < bs@.skip(pos as int).len());
            }
            match read_rules_b(bs, p2, count - 1) {
                None => None,
                Some((more, p3)) => {
                    let mut rs: Vec<FilterRule> = Vec::new();
                    let ghost more0 = more@;
                    rs.push(r);
                    let mut more = more;
                    rs.append(&mut more);
                    proof {
                        assert(rs@ =~= seq![r] + more0);
                        lemma_rules_view_index(rs@);
                        lemma_rules_view_index(more0);
                        assert forall|i: int| 0 <= i < rs@.len() implies rules_view(rs@)[i] == (
                        seq![rule_view(r)] + rules_view(more0))[i] by {
                            if i > 0 {
                                assert(rs@[i] == more0[i - 1]);
                            }
                        }
                        assert(rules_view(rs@) =~= seq![rule_view(r)] + rules_view(more0));
                    }
                    Some((rs, p3))
                },
            }
        },
    }
}

/// Read one rule statement at `pos`.
fn read_item_b(bs: &Vec<u8>, pos: usize) -> (res: Option<(FilterItem, usize)>)
    requires
        pos <= bs.len(),
    ensures
        match dec_item_b(bs@.skip(pos as int)) {
            Some((iv, rem)) => res matches Some((it, p2)) && it@ == iv && pos <= p2 <= bs.len()
                && rem == bs@.skip(p2 as int),
            None => res is None,
        },
{
    let ghost s = bs@.skip(pos as int);
    if pos == bs.len() {
        return None;
    }
    proof {
        assert(s[0] == bs@[pos as int]);
        assert(s.skip(1) =~= bs@.skip(pos as int + 1));
    }
    let ab = bs[pos];
    if ab == 0 || ab == 1 {
        let action = if ab == 0 {
            Action::FilterOut
        } else {
            Action::Pin
        };
        match read_rule_b(bs, pos + 1) {
            Some((r, p2)) => Some((FilterItem { action, rule: r }, p2)),
            None => None,
        }
    } else {
        None
    }
}

/// Read `count` consecutive rule statements at `pos`.
fn read_items_b(bs: &Vec<u8>, pos: usize, count: u64) -> (res: Option<(Vec<FilterItem>, usize)>)
    requires
        pos <= bs.len(),
    ensures
        match dec_items_list_b(bs@.skip(pos as int), count as nat) {
            Some((ivs, rem)) => res matches Some((items, p2)) && items_view(items@) == ivs && pos
                <= p2 <= bs.len() && rem == bs@.skip(p2 as int),
            None => res is None,
        },
    decreases count,
{
    if count == 0 {
        let items: Vec<FilterItem> = Vec::new();
        proof {
            assert(items_view(items@) =~= Seq::<ItemView>::empty());
        }
        return Some((items, pos));
    }
    match read_item_b(bs, pos) {
        None => None,
        Some((it, p2)) => {
            if p2 <= pos {
                proof {
                    assert(bs@.skip(p2 as int).len() >= bs@.skip(pos as int).len());
                }
                return None;
            }
            proof {
                assert(bs@.skip(p2 as int).len() < bs@.skip(pos as int).len());
            }
            match read_items_b(bs, p2, count - 1) {
                None => None,
                Some((more, p3)) => {
                    let mut items: Vec<FilterItem> = Vec::new();
                    let ghost more0 = more@;
                    items.push(it);
                    let mut more = more;
                    items.append(&mut more);
                    proof {
                        assert(items@ =~= seq![it] + more0);
                        assert(items_view(items@) =~= seq![it@] + items_view(more0));
                    }
                    Some((items, p3))
                },
            }
        },
    }
}

/// Decode a binary compiled-rule artifact back into its statement list;
/// `None` on any malformed content. Bytes after the encoded list are ignored.
pub fn decode_items_binary(bytes: &Vec<u8>) -> (res: Option<Vec<FilterItem>>)
    ensures
        match dec_items_b(bytes@) {
            Some((ivs, rem)) => res matches Some(items) && items_view(items@) == ivs,
            None => res is None,
        },
{
    proof {
        assert(bytes@.skip(0) =~= bytes@);
    }
    match read_u64_b(bytes, 0) {
        None => None,
        Some((n, p1)) => {
            match read_items_b(bytes, p1, n) {
                Some((items, _)) => Some(items),
                None => None,
            }
        },
    }
}

} // verus!

verus! {

/// Copy the characters `cs[from..to]`.
fn copy_chars(cs: &Vec<char>, from: usize, to: usize) -> (r: Vec<char>)
    requires
        from <= to <= cs.len(),
    ensures
        r@ == cs@.subrange(from as int, to as int),
{
    let mut r: Vec<char> = Vec::new();
    let mut i: usize = from;
    proof {
        assert(cs@.subrange(from as int, from as int) =~= Seq::<char>::empty());
    }
    while i < to
        invariant
            from <= i <= to <= cs.len(),
            r@ == cs@.subrange(from as int, i as int),
        decreases to - i,
    {
        r.push(cs[i]);
        proof {
            assert(cs@.subrange(from as int, i as int).push(cs@[i as int]) =~= cs@.subrange(
                from as int,
                i as int + 1,
            ));
        }
        i = i + 1;
    }
    r
}

pub proof fn lemma_pow16_pos(w: nat)
    ensures
        pow16(w) >= 1,
    decreases w,
{
    if w > 0 {
        lemma_pow16_pos((w - 1) as nat);
    }
}

pub proof fn lemma_pow16_mono(a: nat, b: nat)
    requires
        a <= b,
    ensures
        pow16(a) <= pow16(b),
    decreases b,
{
    if a < b {
        lemma_pow16_mono(a, (b - 1) as nat);
        lemma_pow16_pos((b - 1) as nat);
    }
}

/// Read a fixed-width hexadecimal number of `w` digits at `pos`; `w` is at
/// most 16.
#[verifier::loop_isolation(false)]
#[verifier::rlimit(100)]
fn read_hex_w(cs: &Vec<char>, pos: usize, w: usize) -> (res: Option<u64>)
    requires
        pos <= cs.len(),
        w <= 16,
    ensures
        ({
            let part = cs@.subrange(pos as int, pos as int + w as int);
            if pos + w <= cs.len() && all_hex_digits(part) {
                res matches Some(x) && x as int == hex_val(part) && hex_val(part) >= 0
            } else {
                res is None
            }
        }),
{
    if cs.len() - pos < w {
        return None;
    }
    let ghost part = cs@.subrange(pos as int, pos as int + w as int);
    let mut acc: u64 = 0;
    let mut k: usize = 0;
    proof {
        assert(part.take(0) =~= Seq::<char>::empty());
    }
    while k < w
        invariant
            0 <= k <= w,
            all_hex_digits(part.take(k as int)),
            acc as int == hex_val(part.take(k as int)),
            acc < pow16(k as nat),
        decreases w - k,
    {
        let c = cs[pos + k];
        let u = c as u32;
        let d: u64 = if 48 <= u && u <= 57 {
            (u - 48) as u64
        } else if 97 <= u && u <= 102 {
            (u - 87) as u64
        } else {
            proof {
                assert(part[k as int] == cs@[pos + k]);
                assert(!is_hex_digit(part[k as int]));
            }
            return None;
        };
        proof {
            lemma_pow16_mono(k as nat, 15);
            assert(pow16(15) == 0x1000000000000000) by {
                reveal_with_fuel(pow16, 16);
            }
            assert(pow16((k + 1) as nat) == 16 * pow16(k as nat));
            assert(part.take(k as int + 1).last() == cs@[pos + k]);
            assert(part.take(k as int + 1).drop_last() =~= part.take(k as int));
            assert(hex_digit_val(part[k as int]) == d);
            assert forall|i: int| 0 <= i < k + 1 implies is_hex_digit(
                #[trigger] part.take(k as int + 1)[i],
            ) by {
                if i < k {
                    assert(part.take(k as int + 1)[i] == part.take(k as int)[i]);
                }
            }
        }
        acc = acc * 16 + d;
        k = k + 1;
    }
    proof {
        assert(part.take(w as int) =~= part);
    }
    Some(acc)
}

/// Read a length-prefixed string at `pos`.
fn read_str_t(cs: &Vec<char>, pos: usize) -> (res: Option<(String, usize)>)
    requires
        pos <= cs.len(),
    ensures
        match dec_str_t(cs@.skip(pos as int)) {
            Some((w, rem)) => res matches Some((x, p2)) && x@ == w && pos <= p2 <= cs.len()
                && rem == cs@.skip(p2 as int),
            None => res is None,
        },
{
    let ghost s = cs@.skip(pos as int);
    proof {
        if pos + 16 <= cs.len() {
            assert(s.take(16) =~= cs@.subrange(pos as int, pos as int + 16));
            assert(s.skip(16) =~= cs@.skip(pos as int + 16));
        } else {
            assert(s.len() < 16);
        }
    }
    match read_hex_w(cs, pos, 16) {
        None => None,
        Some(n) => {
            let p1 = pos + 16;
            if n > (cs.len() - p1) as u64 {
                return None;
            }
            let nn = n as usize;
            let sub = copy_chars(cs, p1, p1 + nn);
            proof {
                assert(cs@.skip(p1 as int).take(n as int) =~= sub@);
                assert(cs@.skip(p1 as int).skip(n as int) =~= cs@.skip(p1 as int + nn as int));
            }
            Some((chars_to_string(&sub), p1 + nn))
        },
    }
}

/// Read a predicate target at `pos`.
fn read_pred_t(cs: &Vec<char>, pos: usize) -> (res: Option<(Predicate, usize)>)
    requires
        pos <= cs.len(),
    ensures
        match dec_pred_t(cs@.skip(pos as int)) {
            Some((pv, rem)) => res matches Some((p, p2)) && p@ == pv && pos <= p2 <= cs.len()
                && rem == cs@.skip(p2 as int),
            None => res is None,
        },
{
    let ghost s = cs@.skip(pos as int);
    if pos == cs.len() {
        return None;
    }
    proof {
        assert(s[0] == cs@[pos as int]);
        assert(s.skip(1) =~= cs@.skip(pos as int + 1));
    }
    let tag = cs[pos];
    if tag == 'i' {
        Some((Predicate::Id, pos + 1))
    } else if tag == 'n' {
        Some((Predicate::Name, pos + 1))
    } else if tag == 'a' {
        match read_str_t(cs, pos + 1) {
            Some((a, p2)) => Some((Predicate::Attr(a), p2)),
            None => None,
        }
    } else if tag == 'g' {
        match read_str_t(cs, pos + 1) {
            Some((g, p2)) => Some((Predicate::Geom(g), p2)),
            None => None,
        }
    } else {
        None
    }
}

/// Read a matcher at `pos`.
fn read_matcher_t(cs: &Vec<char>, pos: usize) -> (res: Option<(Matcher, usize)>)
    requires
        pos <= cs.len(),
    ensures
        match dec_matcher_t(cs@.skip(pos as int)) {
            Some((mv, rem)) => res matches Some((m, p2)) && m@ == mv && pos <= p2 <= cs.len()
                && rem == cs@.skip(p2 as int),
            None => res is None,
        },
{
    let ghost s = cs@.skip(pos as int);
    if pos == cs.len() {
        return None;
    }
    proof {
        assert(s[0] == cs@[pos as int]);
        assert(s.skip(1) =~= cs@.skip(pos as int + 1));
        if pos + 2 <= cs.len() {
            assert(s[1] == cs@[pos as int + 1]);
            assert(s.skip(2) =~= cs@.skip(pos as int + 2));
        }
        if pos + 5 <= cs.len() {
            assert(s.subrange(1, 5) =~= cs@.subrange(pos as int + 1, pos as int + 5));
            assert(s.skip(5) =~= cs@.skip(pos as int + 5));
        }
    }
    let tag = cs[pos];
    if tag == '#' {
        if cs.len() - pos < 5 {
            proof {
                assert(s.len() < 5);
            }
            return None;
        }
        match read_hex_w(cs, pos + 1, 4) {
            None => {
                proof {
                    assert(cs@.subrange(pos as int + 1, pos as int + 5) =~= s.subrange(1, 5));
                }
                None
            },
            Some(u) => {
                proof {
                    reveal_with_fuel(pow16, 5);
                    lemma_hex_val_bound(s.subrange(1, 5));
                }
                Some((Matcher::IntegralValue((u as u16) as i16), pos + 5))
            },
        }
    } else if tag == 'b' {
        if cs.len() - pos < 2 {
            return None;
        }
        let c = cs[pos + 1];
        if c == '0' || c == '1' {
            Some((Matcher::BoolValue(c == '1'), pos + 2))
        } else {
            None
        }
    } else if tag == 'm' {
        if cs.len() - pos < 2 {
            return None;
        }
        let c = cs[pos + 1];
        if c == 'u' {
            Some((Matcher::MapStateValue(MapState::Unmapped), pos + 2))
        } else if c == 'v' {
            Some((Matcher::MapStateValue(MapState::Viewable), pos + 2))
        } else if c == 'w' {
            Some((Matcher::MapStateValue(MapState::Unviewable), pos + 2))
        } else {
            None
        }
    } else if tag == 's' {
        match read_str_t(cs, pos + 1) {
            Some((w, p2)) => Some((Matcher::Wildcard(w), p2)),
            None => None,
        }
    } else {
        None
    }
}

/// The value of hexadecimal digits is bounded by the width.
pub proof fn lemma_hex_val_bound(s: Seq<char>)
    requires
        all_hex_digits(s),
    ensures
        0 <= hex_val(s) < pow16(s.len()),
    decreases s.len(),
{
    if s.len() > 0 {
        assert(all_hex_digits(s.drop_last())) by {
            assert(forall|i: int|
                0 <= i < s.len() - 1 ==> s.drop_last()[i] == #[trigger] s[i]);
        }
        lemma_hex_val_bound(s.drop_last());
        assert(0 <= hex_digit_val(s.last()) < 16);
        assert(hex_val(s.drop_last()) * 16 + hex_digit_val(s.last()) < pow16(s.len())) by (
        nonlinear_arith)
            requires
                0 <= hex_val(s.drop_last()) < pow16((s.len() - 1) as nat),
                0 <= hex_digit_val(s.last()) < 16,
                pow16(s.len()) == 16 * pow16((s.len() - 1) as nat),
        ;
    }
}

/// Read a rule tree at `pos`.
#[verifier::rlimit(100)]
fn read_rule_t(cs: &Vec<char>, pos: usize) -> (res: Option<(FilterRule, usize)>)
    requires
        pos <= cs.len(),
    ensures
        match dec_rule_t(cs@.skip(pos as int)) {
            Some((rv, rem)) => res matches Some((r, p2)) && rule_view(r) == rv && pos <= p2
                <= cs.len() && rem == cs@.skip(p2 as int),
            None => res is None,
        },
    decreases cs.len() - pos, 0int,
{
    let ghost s = cs@.skip(pos as int);
    if pos == cs.len() {
        return None;
    }
    proof {
        assert(s[0] == cs@[pos as int]);
        assert(s.skip(1) =~= cs@.skip(pos as int + 1));
    }
    let tag = cs[pos];
    if tag == '@' {
        Some((FilterRule::Adhoc, pos + 1))
    } else if tag == 'c' {
        Some((FilterRule::ClientsOnly, pos + 1))
    } else if tag == 's' {
        match read_pred_t(cs, pos + 1) {
            None => None,
            Some((pred, p2)) => {
                let ghost rem = cs@.skip(p2 as int);
                if p2 == cs.len() {
                    return None;
                }
                proof {
                    assert(rem[0] == cs@[p2 as int]);
                    assert(rem.skip(1) =~= cs@.skip(p2 as int + 1));
                }
                let opc = cs[p2];
                let op: Op = if opc == '=' {
                    Op::Eq
                } else if opc == '!' {
                    Op::Neq
                } else if opc == '>' {
                    Op::GT
                } else if opc == '<' {
                    Op::LT
                } else if opc == 'G' {
                    Op::GE
                } else if opc == 'L' {
                    Op::LE
                } else {
                    return None;
                };
                match read_matcher_t(cs, p2 + 1) {
                    None => None,
                    Some((m, p3)) => Some((FilterRule::Single { pred, op, matcher: m }, p3)),
                }
            },
        }
    } else if tag == 'A' || tag == 'O' {
        proof {
            if pos + 17 <= cs.len() {
                assert(s.skip(1).take(16) =~= cs@.subrange(pos as int + 1, pos as int + 17));
                assert(s.skip(1).skip(16) =~= cs@.skip(pos as int + 17));
            } else {
                assert(s.skip(1).len() < 16);
            }
        }
        match read_hex_w(cs, pos + 1, 16) {
            None => None,
            Some(n) => {
                match read_rules_t(cs, pos + 17, n) {
                    None => None,
                    Some((children, p3)) => {
                        if tag == 'A' {
                            Some((FilterRule::All(children), p3))
                        } else {
                            Some((FilterRule::Any(children), p3))
                        }
                    },
                }
            },
        }
    } else if tag == 'N' {
        match read_rule_t(cs, pos + 1) {
            Some((r, p2)) => Some((FilterRule::Not(Box::new(r)), p2)),
            None => None,
        }
    } else {
        None
    }
}

/// Read `count` consecutive rule trees at `pos`.
fn read_rules_t(cs: &Vec<char>, pos: usize, count: u64) -> (res: Option<(Vec<FilterRule>, usize)>)
    requires
        pos <= cs.len(),
    ensures
        match dec_rules_t(cs@.skip(pos as int), count as nat) {
            Some((rvs, rem)) => res matches Some((rs, p2)) && rules_view(rs@) == rvs && pos <= p2
                <= cs.len() && rem == cs@.skip(p2 as int),
            None => res is None,
        },
    decreases cs.len() - pos, 1int + count,
{
    if count == 0 {
        let rs: Vec<FilterRule> = Vec::new();
        proof {
            assert(rules_view(rs@) =~= Seq::<RuleView>::empty());
        }
        return Some((rs, pos));
    }
    match read_rule_t(cs, pos) {
        None => None,
        Some((r, p2)) => {
            if p2 <= pos {
                proof {
                    assert(cs@.skip(p2 as int).len() >= cs@.skip(pos as int).len());
                }
                return None;
            }
            proof {
                assert(cs@.skip(p2 as int).len() < cs@.skip(pos as int).len());
            }
            match read_rules_t(cs, p2, count - 1) {
                None => None,
                Some((more, p3)) => {
                    let mut rs: Vec<FilterRule> = Vec::new();
                    let ghost more0 = more@;
                    rs.push(r);
                    let mut more = more;
                    rs.append(&mut more);
                    proof {
                        assert(rs@ =~= seq![r] + more0);
                        lemma_rules_view_index(rs@);
                        lemma_rules_view_index(more0);
                        assert forall|i: int| 0 <= i < rs@.len() implies rules_view(rs@)[i] == (
                        seq![rule_view(r)] + rules_view(more0))[i] by {
                            if i > 0 {
                                assert(rs@[i] == more0[i - 1]);
                            }
                        }
                        assert(rules_view(rs@) =~= seq![rule_view(r)] + rules_view(more0));
                    }
                    Some((rs, p3))
                },
            }
        },
    }
}

/// Read one rule statement at `pos`.
fn read_item_t(cs: &Vec<char>, pos: usize) -> (res: Option<(FilterItem, usize)>)
    requires
        pos <= cs.len(),
    ensures
        match dec_item_t(cs@.skip(pos as int)) {
            Some((iv, rem)) => res matches Some((it, p2)) && it@ == iv && pos <= p2 <= cs.len()
                && rem == cs@.skip(p2 as int),
            None => res is None,
        },
{
    let ghost s = cs@.skip(pos as int);
    if pos == cs.len() {
        return None;
    }
    proof {
        assert(s[0] == cs@[pos as int]);
        assert(s.skip(1) =~= cs@.skip(pos as int + 1));
    }
    let ac = cs[pos];
    if ac == 'F' || ac == 'P' {
        let action = if ac == 'F' {
            Action::FilterOut
        } else {
            Action::Pin
        };
        match read_rule_t(cs, pos + 1) {
            Some((r, p2)) => Some((FilterItem { action, rule: r }, p2)),
            None => None,
        }
    } else {
        None
    }
}

/// Read `count` consecutive rule statements at `pos`.
fn read_items_t(cs: &Vec<char>, pos: usize, count: u64) -> (res: Option<(Vec<FilterItem>, usize)>)
    requires
        pos <= cs.len(),
    ensures
        match dec_items_list_t(cs@.skip(pos as int), count as nat) {
            Some((ivs, rem)) => res matches Some((items, p2)) && items_view(items@) == ivs && pos
                <= p2 <= cs.len() && rem == cs@.skip(p2 as int),
            None => res is None,
        },
    decreases count,
{
    if count == 0 {
        let items: Vec<FilterItem> = Vec::new();
        proof {
            assert(items_view(items@) =~= Seq::<ItemView>::empty());
        }
        return Some((items, pos));
    }
    match read_item_t(cs, pos) {
        None => None,
        Some((it, p2)) => {
            if p2 <= pos {
                proof {
                    assert(cs@.skip(p2 as int).len() >= cs@.skip(pos as int).len());
                }
                return None;
            }
            proof {
                assert(cs@.skip(p2 as int).len() < cs@.skip(pos as int).len());
            }
            match read_items_t(cs, p2, count - 1) {
                None => None,
                Some((more, p3)) => {
                    let mut items: Vec<FilterItem> = Vec::new();
                    let ghost more0 = more@;
                    items.push(it);
                    let mut more = more;
                    items.append(&mut more);
                    proof {
                        assert(items@ =~= seq![it] + more0);
                        assert(items_view(items@) =~= seq![it@] + items_view(more0));
                    }
                    Some((items, p3))
                },
            }
        },
    }
}

/// Decode a text compiled-rule artifact back into its statement list; `None`
/// on any malformed content. Characters after the encoded list are ignored.
pub fn decode_items_text(data: &str) -> (res: Option<Vec<FilterItem>>)
    ensures
        match dec_items_t(data@) {
            Some((ivs, rem)) => res matches Some(items) && items_view(items@) == ivs,
            None => res is None,
        },
{
    let cs = str_chars(data);
    proof {
        assert(cs@.skip(0) =~= cs@);
        if cs@.len() >= 16 {
            assert(cs@.subrange(0, 16) =~= cs@.take(16));
        }
    }
    match read_hex_w(&cs, 0, 16) {
        None => None,
        Some(n) => {
            proof {
                assert(cs@.skip(16) == cs@.skip(16));
            }
            match read_items_t(&cs, 16, n) {
                Some((items, _)) => Some(items),
                None => None,
            }
        },
    }
}

} // verus!
