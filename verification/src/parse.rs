//! Text handling: whitespace tokenization, decimal numbers, and the
//! space-separated proposal instruction language (`mint <amount> <account>`,
//! `update reward <value>`).

use vstd::prelude::*;
use vstd::string::StrSliceExecFns;

use crate::accounting::AccountId;

verus! {

/// ASCII whitespace, as token separators.
pub open spec fn is_space(c: char) -> bool {
    c == ' ' || c == '\t' || c == '\n' || c == '\r' || c == '\u{000c}'
}

/// The tokens of `s` after `cur` has already been read as the beginning of
/// the current token.
pub open spec fn tokens_acc(s: Seq<char>, cur: Seq<char>) -> Seq<Seq<char>>
    decreases s.len(),
{
    if s.len() == 0 {
        if cur.len() == 0 {
            Seq::empty()
        } else {
            seq![cur]
        }
    } else if is_space(s[0]) {
        if cur.len() == 0 {
            tokens_acc(s.skip(1), Seq::empty())
        } else {
            seq![cur] + tokens_acc(s.skip(1), Seq::empty())
        }
    } else {
        tokens_acc(s.skip(1), cur.push(s[0]))
    }
}

/// The whitespace-separated tokens of `s`, in order.
pub open spec fn tokens_of(s: Seq<char>) -> Seq<Seq<char>> {
    tokens_acc(s, Seq::empty())
}

/// A decimal digit.
pub open spec fn is_digit_char(c: char) -> bool {
    48 <= c as u32 <= 57
}

/// The numeric value of a digit.
pub open spec fn digit_val(c: char) -> int {
    c as u32 - 48
}

/// A non-empty, all-digit sequence.
pub open spec fn is_dec_digits(s: Seq<char>) -> bool {
    s.len() >= 1 && forall|i: int| 0 <= i < s.len() ==> is_digit_char(#[trigger] s[i])
}

/// The value of a digit sequence read as a decimal number.
pub open spec fn dec_val(s: Seq<char>) -> int
    decreases s.len(),
{
    if s.len() == 0 {
        0
    } else {
        dec_val(s.drop_last()) * 10 + digit_val(s.last())
    }
}

/// The value of a digit sequence is never negative.
pub proof fn lemma_dec_val_nonneg(s: Seq<char>)
    requires
        forall|i: int| 0 <= i < s.len() ==> is_digit_char(#[trigger] s[i]),
    ensures
        dec_val(s) >= 0,
    decreases s.len(),
{
    if s.len() > 0 {
        assert(forall|i: int|
            0 <= i < s.len() - 1 ==> (#[trigger] s.drop_last()[i]) == s[i]);
        lemma_dec_val_nonneg(s.drop_last());
    }
}

/// Reading more digits never shrinks the value.
pub proof fn lemma_dec_val_prefix(s: Seq<char>, j: int)
    requires
        forall|i: int| 0 <= i < s.len() ==> is_digit_char(#[trigger] s[i]),
        0 <= j <= s.len(),
    ensures
        dec_val(s.take(j)) <= dec_val(s),
    decreases s.len(),
{
    if j == s.len() {
        assert(s.take(j) =~= s);
    } else {
        assert(forall|i: int|
            0 <= i < s.len() - 1 ==> (#[trigger] s.drop_last()[i]) == s[i]);
        assert(s.drop_last().take(j) =~= s.take(j));
        lemma_dec_val_prefix(s.drop_last(), j);
        lemma_dec_val_nonneg(s.drop_last());
    }
}

/// Exec test for a token separator.
fn is_space_char(c: char) -> (r: bool)
    ensures
        r == is_space(c),
{
    c == ' ' || c == '\t' || c == '\n' || c == '\r' || c == '\u{000c}'
}

/// Splits `s` at ASCII whitespace into its tokens.
pub fn tokenize(s: &str) -> (r: Vec<String>)
    ensures
        r.deep_view() == tokens_of(s@),
{
    let n = s.unicode_len();
    let mut toks: Vec<String> = Vec::new();
    let mut i: usize = 0;
    let mut start: usize = 0;
    proof {
        assert(s@.skip(0) =~= s@);
        assert(s@.subrange(0, 0) =~= Seq::<char>::empty());
    }
    while i < n
        invariant
            n == s@.len(),
            start <= i <= n,
            tokens_of(s@) == toks.deep_view() + tokens_acc(
                s@.skip(i as int),
                s@.subrange(start as int, i as int),
            ),
        decreases n - i,
    {
        let ghost rest = s@.skip(i as int);
        let ghost cur = s@.subrange(start as int, i as int);
        proof {
            assert(rest.len() == n - i);
            assert(rest[0] == s@[i as int]);
            assert(rest.skip(1) =~= s@.skip(i + 1));
        }
        let c = s.get_char(i);
        if is_space_char(c) {
            if start < i {
                let tok = s.substring_char(start, i).to_owned();
                let ghost before = toks.deep_view();
                toks.push(tok);
                proof {
                    assert(toks.deep_view() =~= before.push(cur));
                    assert(before.push(cur) =~= before + seq![cur]);
                    assert(tokens_acc(rest, cur) == seq![cur] + tokens_acc(
                        rest.skip(1),
                        Seq::empty(),
                    ));
                    assert(toks.deep_view() + tokens_acc(s@.skip(i + 1), Seq::<char>::empty())
                        =~= before + (seq![cur] + tokens_acc(s@.skip(i + 1), Seq::empty())));
                }
            } else {
                proof {
                    assert(cur =~= Seq::<char>::empty());
                }
            }
            i = i + 1;
            start = i;
            proof {
                assert(s@.subrange(start as int, i as int) =~= Seq::<char>::empty());
            }
        } else {
            i = i + 1;
            proof {
                assert(s@.subrange(start as int, i as int) =~= cur.push(s@[i - 1]));
            }
        }
    }
    let ghost cur = s@.subrange(start as int, i as int);
    proof {
        assert(s@.skip(i as int).len() == 0);
        assert(s@.skip(i as int) =~= Seq::<char>::empty());
    }
    if start < n {
        let tok = s.substring_char(start, n).to_owned();
        let ghost before = toks.deep_view();
        toks.push(tok);
        proof {
            assert(toks.deep_view() =~= before.push(cur));
            assert(before.push(cur) =~= before + seq![cur]);
        }
    } else {
        proof {
            assert(cur =~= Seq::<char>::empty());
            assert(toks.deep_view() + Seq::<Seq<char>>::empty() =~= toks.deep_view());
        }
    }
    toks
}

/// `a * 10 + d` exceeds `m` exactly when `a` exceeds `(m - d) / 10`,
/// for a digit value `d`.
proof fn lemma_mul10_bound(a: int, d: int, m: int)
    requires
        a >= 0,
        0 <= d <= 9,
        m >= 9,
    ensures
        a * 10 + d > m <==> a > (m - d) / 10,
{
    let q = (m - d) / 10;
    vstd::arithmetic::div_mod::lemma_fundamental_div_mod(m - d, 10);
    vstd::arithmetic::div_mod::lemma_remainder_upper(m - d, 10);
    vstd::arithmetic::div_mod::lemma_remainder_lower(m - d, 10);
    assert((m - d) == 10 * q + (m - d) % 10 && 0 <= (m - d) % 10 < 10);
    if a > q {
        assert(a * 10 >= (q + 1) * 10) by (nonlinear_arith)
            requires a >= q + 1;
        assert(a * 10 + d > m);
    }
    if a <= q {
        assert(a * 10 <= q * 10) by (nonlinear_arith)
            requires a <= q;
        assert(a * 10 + d <= m);
    }
}

/// Parses `s` as an unsigned decimal number.
/// Returns `None` when `s` is empty, holds a non-digit, or does not fit.
pub fn parse_dec(s: &str) -> (r: Option<u128>)
    ensures
        match r {
            Some(v) => is_dec_digits(s@) && v as int == dec_val(s@) && dec_val(s@) <= u128::MAX,
            None => !(is_dec_digits(s@) && dec_val(s@) <= u128::MAX),
        },
{
    let n = s.unicode_len();
    if n == 0 {
        return None;
    }
    let mut acc: u128 = 0;
    let mut i: usize = 0;
    proof {
        assert(s@.take(0) =~= Seq::<char>::empty());
    }
    while i < n
        invariant
            n == s@.len(),
            0 <= i <= n,
            forall|k: int| 0 <= k < i ==> is_digit_char(#[trigger] s@[k]),
            acc as int == dec_val(s@.take(i as int)),
        decreases n - i,
    {
        let c = s.get_char(i);
        let d32 = c as u32;
        if d32 < 48 || d32 > 57 {
            return None;
        }
        let d = (d32 - 48) as u128;
        let limit = (u128::MAX - d) / 10;
        proof {
            lemma_mul10_bound(acc as int, d as int, u128::MAX as int);
        }
        if acc > limit {
            proof {
                if is_dec_digits(s@) {
                    assert(s@.take(i + 1).drop_last() =~= s@.take(i as int));
                    assert(s@.take(i + 1).last() == s@[i as int]);
                    assert(dec_val(s@.take(i + 1)) == acc as int * 10 + d);
                    lemma_dec_val_prefix(s@, i + 1);
                }
            }
            return None;
        }
        acc = acc * 10 + d;
        i = i + 1;
        proof {
            assert(s@.take(i as int).drop_last() =~= s@.take(i - 1));
            assert(s@.take(i as int).last() == s@[i - 1]);
        }
    }
    proof {
        assert(s@.take(n as int) =~= s@);
    }
    Some(acc)
}

/// A parsed proposal instruction.
///
/// `Noop` is an `update` whose subject the engine does not know: such a
/// proposal executes without effect (the language is extensible, parsing is
/// permissive).
#[derive(PartialEq, Eq, Structural, Clone, Copy, Debug)]
pub enum Command {
    Mint { account: AccountId, amount: u128 },
    UpdateReward { value: u64 },
    Noop,
}

/// The instruction `s` denotes, or `None` when executing `s` is a fatal
/// parse error. The account argument of `mint` is the account identifier in
/// decimal.
pub open spec fn spec_command(s: Seq<char>) -> Option<Command> {
    let ts = tokens_of(s);
    if ts.len() == 0 {
        None
    } else if ts[0] == "mint"@ {
        if ts.len() >= 3 && is_dec_digits(ts[1]) && dec_val(ts[1]) <= u128::MAX && is_dec_digits(
            ts[2],
        ) && dec_val(ts[2]) <= u64::MAX {
            Some(
                Command::Mint {
                    account: AccountId { id: dec_val(ts[2]) as u64 },
                    amount: dec_val(ts[1]) as u128,
                },
            )
        } else {
            None
        }
    } else if ts[0] == "update"@ {
        if ts.len() >= 2 {
            if ts[1] == "reward"@ {
                if ts.len() >= 3 && is_dec_digits(ts[2]) && dec_val(ts[2]) <= u64::MAX {
                    Some(Command::UpdateReward { value: dec_val(ts[2]) as u64 })
                } else {
                    None
                }
            } else {
                Some(Command::Noop)
            }
        } else {
            None
        }
    } else {
        None
    }
}

/// The first token of `s` is `mint` or `update`: what `new_proposal`
/// requires of a proposal text.
pub open spec fn proposal_head_ok(s: Seq<char>) -> bool {
    let ts = tokens_of(s);
    ts.len() > 0 && (ts[0] == "mint"@ || ts[0] == "update"@)
}

/// Exec check that the first token of `s` is `mint` or `update`.
pub fn check_proposal_head(s: &str) -> (r: bool)
    ensures
        r == proposal_head_ok(s@),
{
    let toks = tokenize(s);
    if toks.len() == 0 {
        proof {
            assert(tokens_of(s@).len() == 0);
        }
        return false;
    }
    proof {
        assert(toks.deep_view()[0] == toks@[0]@);
    }
    let mint: String = "mint".to_owned();
    let update: String = "update".to_owned();
    let head = &toks[0];
    head.eq(&mint) || head.eq(&update)
}

/// Parses `s` as a proposal instruction; `None` is a fatal parse error.
pub fn parse_command(s: &str) -> (r: Option<Command>)
    ensures
        r == spec_command(s@),
{
    let toks = tokenize(s);
    let ghost ts = tokens_of(s@);
    if toks.len() == 0 {
        return None;
    }
    proof {
        assert(forall|k: int| 0 <= k < toks@.len() ==> toks.deep_view()[k] == (
        #[trigger] toks@[k])@);
    }
    let mint: String = "mint".to_owned();
    let update: String = "update".to_owned();
    let reward: String = "reward".to_owned();
    if toks[0].eq(&mint) {
        if toks.len() < 3 {
            return None;
        }
        let amount = match parse_dec(toks[1].as_str()) {
            Some(v) => v,
            None => {
                return None;
            },
        };
        let account = match parse_dec(toks[2].as_str()) {
            Some(v) => v,
            None => {
                return None;
            },
        };
        if account > u64::MAX as u128 {
            return None;
        }
        Some(Command::Mint { account: AccountId { id: account as u64 }, amount })
    } else if toks[0].eq(&update) {
        if toks.len() < 2 {
            return None;
        }
        if toks[1].eq(&reward) {
            if toks.len() < 3 {
                return None;
            }
            let value = match parse_dec(toks[2].as_str()) {
                Some(v) => v,
                None => {
                    return None;
                },
            };
            if value > u64::MAX as u128 {
                return None;
            }
            Some(Command::UpdateReward { value: value as u64 })
        } else {
            Some(Command::Noop)
        }
    } else {
        None
    }
}

/// A valid plan text: the decimal supply, fitting the engine's parse width.
pub open spec fn is_plan_supply(s: Seq<char>) -> bool {
    is_dec_digits(s) && dec_val(s) <= u64::MAX
}

/// Parses a plan text as its supply; `None` when the text is not a valid
/// plan.
pub fn plan_supply(s: &str) -> (r: Option<u64>)
    ensures
        match r {
            Some(v) => is_plan_supply(s@) && v as int == dec_val(s@),
            None => !is_plan_supply(s@),
        },
{
    match parse_dec(s) {
        Some(v) => {
            if v > u64::MAX as u128 {
                None
            } else {
                Some(v as u64)
            }
        },
        None => {
            proof {
                if is_dec_digits(s@) {
                    lemma_dec_val_nonneg(s@);
                }
            }
            None
        },
    }
}

} // verus!
