//! The batch-distribution payload: records separated by `?`, each record
//! a recipient's encoded address and a decimal amount separated by `#`.
//! Records are checked and dispatched in order; the first malformed
//! record stops the batch, but the records before it are already planned
//! for dispatch, mirroring the non-transactional batch semantics.

use vstd::prelude::*;

use crate::account::AccountId;
use crate::codec::account_from_text;
use crate::codec::account_of_text;

verus! {

/// One planned governance-token dispatch.
pub struct DistRecord {
    pub recipient: AccountId,
    pub amount: u128,
}

/// The mathematical value of a [`DistRecord`].
pub struct DistRecordView {
    pub recipient: Seq<u8>,
    pub amount: u128,
}

impl View for DistRecord {
    type V = DistRecordView;

    open spec fn view(&self) -> DistRecordView {
        DistRecordView { recipient: self.recipient@, amount: self.amount }
    }
}

/// A decimal digit.
pub open spec fn is_dec_digit(c: char) -> bool {
    ('0' as u32) <= (c as u32) && (c as u32) <= ('9' as u32)
}

/// A nonempty string of decimal digits.
pub open spec fn is_dec_string(s: Seq<char>) -> bool {
    s.len() > 0 && forall|i: int| 0 <= i < s.len() ==> is_dec_digit(#[trigger] s[i])
}

/// The number a string of decimal digits denotes.
pub open spec fn dec_value(s: Seq<char>) -> nat
    decreases s.len(),
{
    if s.len() == 0 {
        0
    } else {
        dec_value(s.drop_last()) * 10 + ((s.last() as u32) - ('0' as u32)) as nat
    }
}

/// The amount a text denotes: a nonempty all-digit string whose value
/// fits the amount type; anything else is refused.
pub open spec fn parse_amount(s: Seq<char>) -> Option<u128> {
    if is_dec_string(s) && dec_value(s) <= u128::MAX {
        Option::Some(dec_value(s) as u128)
    } else {
        Option::None
    }
}

/// A longer digit string denotes at least as much as its prefix.
proof fn lemma_dec_value_prefix(s: Seq<char>, k: int)
    requires
        0 <= k <= s.len(),
    ensures
        dec_value(s.subrange(0, k)) <= dec_value(s),
    decreases s.len() - k,
{
    if k < s.len() {
        let t = s.subrange(0, k + 1);
        assert(t.drop_last() =~= s.subrange(0, k));
        assert(dec_value(t) == dec_value(s.subrange(0, k)) * 10 + ((t.last() as u32) - ('0'
            as u32)) as nat);
        assert(dec_value(s.subrange(0, k)) <= dec_value(s.subrange(0, k)) * 10);
        lemma_dec_value_prefix(s, k + 1);
    } else {
        assert(s.subrange(0, k) =~= s);
    }
}

/// Parses a decimal amount; answers nothing on empty input, a non-digit
/// character, or a value too large for the amount type.
pub fn parse_u128(s: &str) -> (r: Option<u128>)
    ensures
        r == parse_amount(s@),
{
    let n = s.unicode_len();
    if n == 0 {
        return None;
    }
    let mut acc: u128 = 0;
    let mut i: usize = 0;
    while i < n
        invariant
            0 < n == s@.len(),
            0 <= i <= n,
            forall|j: int| 0 <= j < i ==> is_dec_digit(#[trigger] s@[j]),
            acc == dec_value(s@.subrange(0, i as int)),
        decreases n - i,
    {
        let c = s.get_char(i);
        let cu: u32 = c as u32;
        if cu < ('0' as u32) || cu > ('9' as u32) {
            assert(!is_dec_digit(s@[i as int]));
            return None;
        }
        let d: u128 = (cu - ('0' as u32)) as u128;
        let ghost pre = s@.subrange(0, i as int);
        let ghost cur = s@.subrange(0, i as int + 1);
        proof {
            assert(cur.drop_last() =~= pre);
            assert(cur.last() == s@[i as int]);
            assert(dec_value(cur) == dec_value(pre) * 10 + d);
        }
        let shifted = match acc.checked_mul(10) {
            Option::Some(x) => x,
            Option::None => {
                proof {
                    lemma_dec_value_prefix(s@, i as int + 1);
                }
                return None;
            },
        };
        acc = match shifted.checked_add(d) {
            Option::Some(x) => x,
            Option::None => {
                proof {
                    lemma_dec_value_prefix(s@, i as int + 1);
                }
                return None;
            },
        };
        i = i + 1;
    }
    proof {
        assert(s@.subrange(0, n as int) =~= s@);
    }
    Some(acc)
}

/// Position of the first occurrence of `c` at or after `pos`, or the
/// length if there is none.
pub open spec fn next_pos(s: Seq<char>, pos: int, c: char) -> int
    decreases s.len() - pos,
{
    if pos < 0 || pos >= s.len() {
        s.len() as int
    } else if s[pos] == c {
        pos
    } else {
        next_pos(s, pos + 1, c)
    }
}

/// `next_pos` is the first occurrence: nothing matches before it, and it
/// matches unless it is the length.
pub proof fn lemma_next_pos(s: Seq<char>, pos: int, c: char)
    requires
        0 <= pos <= s.len(),
    ensures
        pos <= next_pos(s, pos, c) <= s.len(),
        forall|j: int| pos <= j < next_pos(s, pos, c) ==> s[j] != c,
        next_pos(s, pos, c) < s.len() ==> s[next_pos(s, pos, c)] == c,
    decreases s.len() - pos,
{
    if pos < s.len() && s[pos] != c {
        lemma_next_pos(s, pos + 1, c);
    }
}

/// Finds the first occurrence of `c` at or after `from`.
fn find_char(s: &str, from: usize, c: char) -> (r: usize)
    requires
        from <= s@.len(),
    ensures
        r == next_pos(s@, from as int, c),
        from <= r <= s@.len(),
    {
    let n = s.unicode_len();
    let mut i: usize = from;
    while i < n
        invariant
            from <= i <= n,
            n == s@.len(),
            forall|j: int| from <= j < i ==> s@[j] != c,
            next_pos(s@, from as int, c) == next_pos(s@, i as int, c),
        decreases n - i,
    {
        if s.get_char(i) == c {
            proof {
                lemma_next_pos(s@, i as int, c);
            }
            return i;
        }
        i = i + 1;
    }
    proof {
        lemma_next_pos(s@, n as int, c);
    }
    n
}

/// What one record of the payload denotes: present exactly when the
/// record has a single `#`, its left field names an account and its
/// right field is a valid amount.
pub open spec fn parse_record(rec: Seq<char>) -> Option<DistRecordView> {
    let h = next_pos(rec, 0, '#');
    if h >= rec.len() {
        Option::None
    } else if next_pos(rec, h + 1, '#') < rec.len() {
        Option::None
    } else {
        match account_of_text(rec.subrange(0, h)) {
            Option::Some(acct) => match parse_amount(rec.subrange(h + 1, rec.len() as int)) {
                Option::Some(a) => Option::Some(DistRecordView { recipient: acct, amount: a }),
                Option::None => Option::None,
            },
            Option::None => Option::None,
        }
    }
}

/// Parses one record of the payload.
fn parse_record_exec(rec: &str) -> (r: Option<DistRecord>)
    ensures
        r is Some <==> parse_record(rec@) is Some,
        r is Some ==> r->0@ == parse_record(rec@)->0,
{
    let n = rec.unicode_len();
    let h = find_char(rec, 0, '#');
    if h >= n {
        return None;
    }
    if find_char(rec, h + 1, '#') < n {
        return None;
    }
    let addr_txt = rec.substring_char(0, h);
    let amt_txt = rec.substring_char(h + 1, n);
    let recipient = match account_from_text(addr_txt) {
        Option::Some(a) => a,
        Option::None => {
            return None;
        },
    };
    let amount = match parse_u128(amt_txt) {
        Option::Some(a) => a,
        Option::None => {
            return None;
        },
    };
    Some(DistRecord { recipient, amount })
}

/// What the whole payload from `pos` on denotes: the dispatches of its
/// leading well-formed records, and whether every record was well
/// formed. A malformed record ends the plan but keeps what came before.
pub open spec fn plan_of(s: Seq<char>, pos: int) -> (Seq<DistRecordView>, bool)
    decreases s.len() - pos,
    via plan_of_decreases
{
    if pos < 0 || pos > s.len() {
        (Seq::empty(), true)
    } else {
        let end = next_pos(s, pos, '?');
        match parse_record(s.subrange(pos, end)) {
            Option::Some(r) => if end < s.len() {
                let rest = plan_of(s, end + 1);
                (seq![r] + rest.0, rest.1)
            } else {
                (seq![r], true)
            },
            Option::None => (Seq::empty(), false),
        }
    }
}

#[via_fn]
proof fn plan_of_decreases(s: Seq<char>, pos: int) {
    if 0 <= pos <= s.len() {
        lemma_next_pos(s, pos, '?');
    }
}

/// Parses the payload into the dispatches of its leading well-formed
/// records, and whether the whole payload was well formed.
pub fn parse_distribution(csv_data: &str) -> (r: (Vec<DistRecord>, bool))
    ensures
        r.0@.map_values(|d: DistRecord| d@) == plan_of(csv_data@, 0).0,
        r.1 == plan_of(csv_data@, 0).1,
{
    let n = csv_data.unicode_len();
    let mut out: Vec<DistRecord> = Vec::new();
    let mut pos: usize = 0;
    proof {
        assert(out@.map_values(|d: DistRecord| d@) =~= Seq::<DistRecordView>::empty());
    }
    loop
        invariant
            0 <= pos <= n,
            n == csv_data@.len(),
            plan_of(csv_data@, 0).0 == out@.map_values(|d: DistRecord| d@) + plan_of(
                csv_data@,
                pos as int,
            ).0,
            plan_of(csv_data@, 0).1 == plan_of(csv_data@, pos as int).1,
        decreases n - pos,
    {
        let ghost gpos = pos as int;
        let end = find_char(csv_data, pos, '?');
        let rec_txt = csv_data.substring_char(pos, end);
        proof {
            lemma_next_pos(csv_data@, gpos, '?');
        }
        match parse_record_exec(rec_txt) {
            Option::Some(r) => {
                let ghost preout = out@;
                out.push(r);
                proof {
                    assert(out@.map_values(|d: DistRecord| d@) =~= preout.map_values(
                        |d: DistRecord| d@,
                    ).push(r@));
                }
                if end < n {
                    pos = end + 1;
                    proof {
                        assert(plan_of(csv_data@, gpos).0 == seq![r@] + plan_of(
                            csv_data@,
                            end as int + 1,
                        ).0);
                        assert(preout.map_values(|d: DistRecord| d@) + plan_of(csv_data@, gpos).0
                            =~= out@.map_values(|d: DistRecord| d@) + plan_of(
                            csv_data@,
                            pos as int,
                        ).0);
                    }
                } else {
                    proof {
                        assert(plan_of(csv_data@, gpos).0 =~= seq![r@]);
                        assert(preout.map_values(|d: DistRecord| d@) + plan_of(csv_data@, gpos).0
                            =~= out@.map_values(|d: DistRecord| d@));
                    }
                    return (out, true);
                }
            },
            Option::None => {
                proof {
                    assert(plan_of(csv_data@, gpos).0 =~= Seq::<DistRecordView>::empty());
                    assert(out@.map_values(|d: DistRecord| d@) + plan_of(csv_data@, gpos).0
                        =~= out@.map_values(|d: DistRecord| d@));
                }
                return (out, false);
            },
        }
    }
}

} // verus!
