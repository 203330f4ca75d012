//! Foreign-currency translation of an entity's trial balance (net-investment method).
use vstd::prelude::*;
use crate::decimal::{Dec, dec_add_result, dec_mul_result, dec_checked_add, dec_checked_mul, fits_at, lemma_add_exact};
use crate::consol::types::AccountType;
use crate::text::copy_str;
use crate::amount_map::entries_view;

verus! {

/// Rates from an entity's functional currency into the group currency.
#[derive(Clone, Copy, Debug)]
pub struct FxRates {
    /// Closing rate (assets, liabilities).
    pub closing: Dec,
    /// Average rate (income, expense).
    pub average: Dec,
    /// Historical rate (equity, non-controlling interest).
    pub historical: Dec,
}

/// The rate an account of a given type is translated at.
pub open spec fn rate_for(t: AccountType, rates: FxRates) -> Dec {
    match t {
        AccountType::Asset | AccountType::Liability => rates.closing,
        AccountType::Income | AccountType::Expense => rates.average,
        AccountType::Equity | AccountType::Nci => rates.historical,
    }
}

/// The translated lines and their running sum (None on overflow).
pub open spec fn translate_fold(bs: Seq<(String, Dec)>, types: Seq<AccountType>, rates: FxRates) -> Option<
    (Seq<(Seq<char>, Dec)>, Dec),
>
    decreases bs.len(),
{
    if bs.len() == 0 || types.len() != bs.len() {
        if bs.len() == 0 {
            Some((Seq::empty(), Dec::zero_val()))
        } else {
            None
        }
    } else {
        match translate_fold(bs.drop_last(), types.drop_last(), rates) {
            Some(acc) => match dec_mul_result(bs.last().1, rate_for(types.last(), rates)) {
                Some(x) => match dec_add_result(acc.1, x) {
                    Some(s) => Some((acc.0.push((bs.last().0@, x)), s)),
                    None => None,
                },
                None => None,
            },
            None => None,
        }
    }
}

/// The translated trial balance: each line at its rate, then the translation
/// difference (minus the running sum) on the CTA account when it is not zero.
pub open spec fn translate_spec(bs: Seq<(String, Dec)>, types: Seq<AccountType>, rates: FxRates, cta: Seq<char>) -> Option<
    Seq<(Seq<char>, Dec)>,
> {
    match translate_fold(bs, types, rates) {
        Some(acc) => if acc.1.val() == 0 {
            Some(acc.0)
        } else {
            Some(acc.0.push((cta, acc.1.neg_val())))
        },
        None => None,
    }
}

/// The exact sum of the amounts of some lines.
pub open spec fn lines_total(ls: Seq<(Seq<char>, Dec)>) -> int
    decreases ls.len(),
{
    if ls.len() == 0 {
        0
    } else {
        lines_total(ls.drop_last()) + ls.last().1.val()
    }
}

/// Every amount has at most `s` digits and every running sum of the amounts fits at
/// `s`: decimal addition over them is exact.
pub open spec fn sums_exact(ls: Seq<(Seq<char>, Dec)>, s: nat) -> bool {
    &&& s <= 28
    &&& forall|i: int| 0 <= i < ls.len() ==> (#[trigger] ls[i]).1.wf() && ls[i].1.scl() <= s
    &&& forall|k: int| 0 <= k <= ls.len() ==> fits_at(#[trigger] lines_total(ls.subrange(0, k)), s)
}

/// `types[i]` is what `f` returned for the code of line `i` (passed as `args[i]`).
pub open spec fn typed_by<F: Fn(&str) -> AccountType>(
    f: F,
    bs: Seq<(String, Dec)>,
    types: Seq<AccountType>,
    args: Seq<&str>,
) -> bool {
    &&& types.len() == bs.len()
    &&& args.len() == bs.len()
    &&& forall|i: int| 0 <= i < bs.len() ==> (#[trigger] args[i])@ == bs[i].0@ && f.ensures((args[i],), types[i])
}

/// Translation of an entity's balances (debit-positive) into the group currency:
/// assets and liabilities at the closing rate, income and expense at the average
/// rate, equity and non-controlling interest at the historical rate; the difference
/// goes to the CTA account so that the translated balances still add up to zero.
pub fn translate_entity<F: Fn(&str) -> AccountType>(
    balances: &[(String, Dec)],
    account_type_of: F,
    rates: FxRates,
    cta_account: &str,
) -> (r: Vec<(String, Dec)>)
    requires
        forall|a: &str| account_type_of.requires((a,)),
        forall|types: Seq<AccountType>, args: Seq<&str>|
            #[trigger] typed_by(account_type_of, balances@, types, args) ==> translate_fold(balances@, types, rates) is Some,
    ensures
        exists|types: Seq<AccountType>, args: Seq<&str>|
            #![trigger typed_by(account_type_of, balances@, types, args)]
            {
                &&& typed_by(account_type_of, balances@, types, args)
                &&& entries_view(r@) == translate_spec(
                    balances@,
                    types,
                    rates,
                    cta_account@,
                )->0
                &&& (forall|s: nat|
                    #[trigger] sums_exact((translate_fold(balances@, types, rates)->0).0, s) ==> lines_total(
                        entries_view(r@),
                    ) == 0)
                &&& entries_view(r@).len() >= balances@.len()
                &&& forall|i: int|
                    #![trigger balances@[i]]
                    0 <= i < balances@.len() ==> at_group_rate(entries_view(r@)[i], balances@[i], types[i], rates)
            },
{
    let mut types: Vec<AccountType> = Vec::new();
    let ghost mut args: Seq<&str> = Seq::empty();
    let mut i: usize = 0;
    while i < balances.len()
        invariant
            i <= balances@.len(),
            types@.len() == i,
            args.len() == i,
            forall|a: &str| account_type_of.requires((a,)),
            forall|j: int|
                0 <= j < i ==> (#[trigger] args[j])@ == balances@[j].0@ && account_type_of.ensures(
                    (args[j],),
                    types@[j],
                ),
        decreases balances@.len() - i,
    {
        let acc = balances[i].0.as_str();
        let t = account_type_of(acc);
        types.push(t);
        proof {
            args = args.push(acc);
        }
        i = i + 1;
    }
    assert(typed_by(account_type_of, balances@, types@, args));
    match translate_typed(balances, &types, rates, cta_account) {
        Some(v) => {
            proof {
                lemma_translate_rates(balances@, types@, rates, cta_account@);
            }
            v
        },
        None => {
            proof {
                assert(translate_fold(balances@, types@, rates) is Some);
            }
            Vec::new()
        },
    }
}

/// The translated trial balance for given account types (see `translate_spec`), None
/// where a product or the running sum overflows.
pub fn try_translate_typed(
    balances: &Vec<(String, Dec)>,
    types: &Vec<AccountType>,
    rates: FxRates,
    cta_account: &str,
) -> (r: Option<Vec<(String, Dec)>>)
    requires
        types@.len() == balances@.len(),
    ensures
        match translate_spec(balances@, types@, rates, cta_account@) {
            Some(t) => r matches Some(v) && entries_view(v@) == t,
            None => r is None,
        },
        r matches Some(v) ==> entries_view(v@).len() >= balances@.len() && forall|i: int|
            #![trigger balances@[i]]
            0 <= i < balances@.len() ==> at_group_rate(entries_view(v@)[i], balances@[i], types@[i], rates),
{
    let r = translate_typed(balances.as_slice(), types, rates, cta_account);
    proof {
        if r is Some {
            lemma_translate_rates(balances@, types@, rates, cta_account@);
        }
    }
    r
}

/// `try_translate_typed` over a slice; where the sums are exact the translated lines
/// add up to zero.
fn translate_typed(
    balances: &[(String, Dec)],
    types: &Vec<AccountType>,
    rates: FxRates,
    cta_account: &str,
) -> (r: Option<Vec<(String, Dec)>>)
    requires
        types@.len() == balances@.len(),
    ensures
        match translate_spec(balances@, types@, rates, cta_account@) {
            Some(t) => r matches Some(v) && entries_view(v@) == t && (forall|s: nat|
                #[trigger] sums_exact((translate_fold(balances@, types@, rates)->0).0, s) ==> lines_total(t) == 0),
            None => r is None,
        },
{
    let mut out: Vec<(String, Dec)> = Vec::new();
    let mut sum = Dec::zero();
    let mut i: usize = 0;
    proof {
        Dec::lemma_zero_one();
        assert(balances@.subrange(0, 0) =~= Seq::<(String, Dec)>::empty());
        assert(types@.subrange(0, 0) =~= Seq::<AccountType>::empty());
        assert(entries_view(out@) =~= Seq::<(Seq<char>, Dec)>::empty());
    }
    while i < balances.len()
        invariant
            i <= balances@.len(),
            types@.len() == balances@.len(),
            translate_fold(balances@.subrange(0, i as int), types@.subrange(0, i as int), rates) == Some(
                (entries_view(out@), sum),
            ),
            sum.wf(),
            forall|s: nat|
                #[trigger] sums_exact(entries_view(out@), s) ==> sum.val()
                    == lines_total(entries_view(out@)) && sum.scl() <= s,
        decreases balances@.len() - i,
    {
        let ghost pre = balances@.subrange(0, i as int);
        let ghost nxt = balances@.subrange(0, i + 1);
        let ghost tnxt = types@.subrange(0, i + 1);
        proof {
            assert(nxt.drop_last() =~= pre);
            assert(tnxt.drop_last() =~= types@.subrange(0, i as int));
            assert(nxt.last() == balances@[i as int]);
            assert(tnxt.last() == types@[i as int]);
        }
        let rate = match types[i] {
            AccountType::Asset | AccountType::Liability => rates.closing,
            AccountType::Income | AccountType::Expense => rates.average,
            AccountType::Equity | AccountType::Nci => rates.historical,
        };
        let x = match dec_checked_mul(balances[i].1, rate) {
            Some(x) => x,
            None => {
                proof {
                    if translate_fold(balances@, types@, rates) is Some {
                        lemma_fold_prefix(balances@, types@, rates, i + 1);
                    }
                }
                return None;
            },
        };
        let ghost old_out = entries_view(out@);
        let ghost old_sum = sum;
        sum = match dec_checked_add(sum, x) {
            Some(t) => t,
            None => {
                proof {
                    if translate_fold(balances@, types@, rates) is Some {
                        lemma_fold_prefix(balances@, types@, rates, i + 1);
                    }
                }
                return None;
            },
        };
        out.push((balances[i].0.clone(), x));
        proof {
            let now = entries_view(out@);
            assert(now =~= old_out.push((balances@[i as int].0@, x)));
            assert(now.drop_last() =~= old_out);
            assert forall|s: nat| #[trigger] sums_exact(now, s) implies sum.val() == lines_total(now)
                && sum.scl() <= s by {
                assert forall|k: int| 0 <= k <= old_out.len() implies fits_at(
                    #[trigger] lines_total(old_out.subrange(0, k)),
                    s,
                ) by {
                    assert(old_out.subrange(0, k) =~= now.subrange(0, k));
                }
                assert forall|j: int| 0 <= j < old_out.len() implies (#[trigger] old_out[j]).1.wf()
                    && old_out[j].1.scl() <= s by {
                    assert(old_out[j] == now[j]);
                }
                assert(sums_exact(old_out, s));
                assert(now.subrange(0, now.len() as int) =~= now);
                assert(now[now.len() - 1] == (balances@[i as int].0@, x));
                assert(fits_at(lines_total(now.subrange(0, now.len() as int)), s));
                assert(lines_total(now) == lines_total(old_out) + x.val());
                assert(x == now[now.len() - 1].1);
                lemma_add_exact(old_sum, x, s);
            }
        }
        i = i + 1;
    }
    proof {
        assert(balances@.subrange(0, balances@.len() as int) =~= balances@);
        assert(types@.subrange(0, types@.len() as int) =~= types@);
    }
    let ghost body = entries_view(out@);
    proof {
        sum.lemma_negation();
    }
    let cta = sum.neg();
    if !cta.is_zero() {
        out.push((copy_str(cta_account), cta));
        proof {
            assert(entries_view(out@) =~= body.push((cta_account@, sum.neg_val())));
        }
    }
    proof {
        let now = entries_view(out@);
        assert forall|s: nat| #[trigger] sums_exact(body, s) implies lines_total(now) == 0 by {
            if !(sum.val() == 0) {
                assert(now.drop_last() =~= body);
            }
        }
    }
    Some(out)
}

/// A translated line of balance `b`, an account of type `t`: same account, its
/// amount times the closing rate for assets and liabilities, the average rate for
/// income and expense, the historical rate for equity and non-controlling interest.
pub open spec fn at_group_rate(line: (Seq<char>, Dec), b: (String, Dec), t: AccountType, rates: FxRates) -> bool {
    &&& line.0 == b.0@
    &&& (t is Asset || t is Liability) ==> line.1 == dec_mul_result(b.1, rates.closing)->0
    &&& (t is Income || t is Expense) ==> line.1 == dec_mul_result(b.1, rates.average)->0
    &&& (t is Equity || t is Nci) ==> line.1 == dec_mul_result(b.1, rates.historical)->0
}

proof fn lemma_fold_lines(bs: Seq<(String, Dec)>, types: Seq<AccountType>, rates: FxRates)
    requires
        translate_fold(bs, types, rates) is Some,
    ensures
        (translate_fold(bs, types, rates)->0).0.len() == bs.len(),
        forall|i: int|
            #![trigger bs[i]]
            0 <= i < bs.len() ==> at_group_rate((translate_fold(bs, types, rates)->0).0[i], bs[i], types[i], rates),
    decreases bs.len(),
{
    if bs.len() > 0 {
        let pre = bs.drop_last();
        let tpre = types.drop_last();
        lemma_fold_lines(pre, tpre, rates);
        let acc = translate_fold(pre, tpre, rates)->0;
        let now = (translate_fold(bs, types, rates)->0).0;
        assert forall|i: int| #![trigger bs[i]] 0 <= i < bs.len() implies at_group_rate(now[i], bs[i], types[i], rates) by {
            if i < bs.len() - 1 {
                assert(pre[i] == bs[i]);
                assert(tpre[i] == types[i]);
                assert(now[i] == acc.0[i]);
            }
        }
    }
}

/// Translation line by line: the first lines of the translated trial balance are the
/// balances in order, each at the rate of its account type (see `at_group_rate`);
/// at most one line follows, on the CTA account.
pub proof fn lemma_translate_rates(bs: Seq<(String, Dec)>, types: Seq<AccountType>, rates: FxRates, cta: Seq<char>)
    requires
        translate_spec(bs, types, rates, cta) is Some,
    ensures
        (translate_spec(bs, types, rates, cta)->0).len() >= bs.len(),
        forall|i: int|
            #![trigger bs[i]]
            0 <= i < bs.len() ==> at_group_rate((translate_spec(bs, types, rates, cta)->0)[i], bs[i], types[i], rates),
        (translate_spec(bs, types, rates, cta)->0).len() == bs.len() || ((translate_spec(bs, types, rates, cta)->0).len()
            == bs.len() + 1 && (translate_spec(bs, types, rates, cta)->0).last().0 == cta),
{
    lemma_fold_lines(bs, types, rates);
    let body = (translate_fold(bs, types, rates)->0).0;
    let out = translate_spec(bs, types, rates, cta)->0;
    assert forall|i: int| #![trigger bs[i]] 0 <= i < bs.len() implies at_group_rate(out[i], bs[i], types[i], rates) by {
        assert(out[i] == body[i]);
    }
}

proof fn lemma_fold_prefix(bs: Seq<(String, Dec)>, types: Seq<AccountType>, rates: FxRates, n: int)
    requires
        0 <= n <= bs.len(),
        types.len() == bs.len(),
        translate_fold(bs, types, rates) is Some,
    ensures
        translate_fold(bs.subrange(0, n), types.subrange(0, n), rates) is Some,
    decreases bs.len() - n,
{
    if n < bs.len() {
        lemma_fold_prefix(bs, types, rates, n + 1);
        assert(bs.subrange(0, n + 1).drop_last() =~= bs.subrange(0, n));
        assert(types.subrange(0, n + 1).drop_last() =~= types.subrange(0, n));
    } else {
        assert(bs.subrange(0, n) =~= bs);
        assert(types.subrange(0, n) =~= types);
    }
}

} // verus!
