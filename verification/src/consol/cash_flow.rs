//! The cash-flow statement by the worksheet (indirect) method: the three activities'
//! net cash flows derived from two periods of consolidated balances.
use vstd::prelude::*;
use crate::decimal::{Dec, dec_add, dec_sub, dec_add_result, dec_sub_result, fits_at, lemma_add_exact, lemma_sub_exact};
use crate::amount_map::{AmountMap, Entries, lookup, sorted_keys, lemma_lookup_unique, lemma_index_of, index_of};
use crate::consol::worksheet::amount_or_zero;
use crate::text::{seq_lt, has_prefix, starts_with, lower_chars, lower_seq, chars_of, chars_eq};

verus! {

/// Cash-flow activity of an account.
#[derive(Clone, Copy, Debug, PartialEq, Eq, Structural)]
pub enum CfActivity {
    Operating,
    Investing,
    Financing,
    /// Cash and cash equivalents themselves (checked against, not an activity).
    Cash,
}

/// One line of the worksheet-method cash flow (debit-positive net cash).
#[derive(Clone, Copy, Debug, PartialEq)]
pub struct CashFlowLine {
    pub activity: CfActivity,
    pub amount: Dec,
}

/// The activity of an account by its code and type: cash (1001/1002/1012), equity and
/// borrowings (2501/2701) financing, long-term assets (15xx-18xx) investing, the rest
/// operating.
pub open spec fn classify_spec(code: Seq<char>, acc_type: Seq<char>) -> CfActivity {
    let t = lower_seq(acc_type);
    if has_prefix(code, "1001"@) || has_prefix(code, "1002"@) || has_prefix(code, "1012"@) {
        CfActivity::Cash
    } else if t == "equity"@ || t == "nci"@ || t == "权益"@ || t == "少数股东权益"@ {
        CfActivity::Financing
    } else if has_prefix(code, "2501"@) || has_prefix(code, "2701"@) {
        CfActivity::Financing
    } else if has_prefix(code, "15"@) || has_prefix(code, "16"@) || has_prefix(code, "17"@)
        || has_prefix(code, "18"@) {
        CfActivity::Investing
    } else {
        CfActivity::Operating
    }
}

fn lit_eq(t: &Vec<char>, lit: &str) -> (r: bool)
    ensures
        r == (t@ == lit@),
{
    let l = chars_of(lit);
    chars_eq(t.as_slice(), l.as_slice())
}

/// Classifies an account for the worksheet-method cash flow.
pub fn classify_account(code: &str, acc_type: &str) -> (r: CfActivity)
    ensures
        r == classify_spec(code@, acc_type@),
{
    if starts_with(code, "1001") || starts_with(code, "1002") || starts_with(code, "1012") {
        return CfActivity::Cash;
    }
    let t = lower_chars(acc_type);
    if lit_eq(&t, "equity") || lit_eq(&t, "nci") || lit_eq(&t, "权益") || lit_eq(&t, "少数股东权益") {
        return CfActivity::Financing;
    }
    if starts_with(code, "2501") || starts_with(code, "2701") {
        return CfActivity::Financing;
    }
    if starts_with(code, "15") || starts_with(code, "16") || starts_with(code, "17") || starts_with(code, "18") {
        return CfActivity::Investing;
    }
    CfActivity::Operating
}

/// The change of an account between the periods (closing − opening), as `Decimal`
/// subtracts.
pub open spec fn delta_of(op: Entries, cl: Entries, k: Seq<char>) -> Option<Dec> {
    dec_sub_result(amount_or_zero(cl, k), amount_or_zero(op, k))
}

/// Adds one account's change into the running totals (operating, investing,
/// financing, cash): a non-cash account contributes −Δ to its activity, a cash
/// account Δ to the cash change.
pub open spec fn cf_step(t: (Dec, Dec, Dec, Dec), d: Dec, a: CfActivity) -> Option<(Dec, Dec, Dec, Dec)> {
    match a {
        CfActivity::Operating => match dec_add_result(t.0, d.neg_val()) {
            Some(x) => Some((x, t.1, t.2, t.3)),
            None => None,
        },
        CfActivity::Investing => match dec_add_result(t.1, d.neg_val()) {
            Some(x) => Some((t.0, x, t.2, t.3)),
            None => None,
        },
        CfActivity::Financing => match dec_add_result(t.2, d.neg_val()) {
            Some(x) => Some((t.0, t.1, x, t.3)),
            None => None,
        },
        CfActivity::Cash => match dec_add_result(t.3, d) {
            Some(x) => Some((t.0, t.1, t.2, x)),
            None => None,
        },
    }
}

/// The running totals over the accounts in order (None on overflow).
pub open spec fn cf_totals(op: Entries, cl: Entries, keys: Seq<Seq<char>>, cls: Seq<CfActivity>) -> Option<
    (Dec, Dec, Dec, Dec),
>
    decreases keys.len(),
{
    if keys.len() == 0 {
        Some((Dec::zero_val(), Dec::zero_val(), Dec::zero_val(), Dec::zero_val()))
    } else if cls.len() != keys.len() {
        None
    } else {
        match cf_totals(op, cl, keys.drop_last(), cls.drop_last()) {
            Some(t) => match delta_of(op, cl, keys.last()) {
                Some(d) => cf_step(t, d, cls.last()),
                None => None,
            },
            None => None,
        }
    }
}

/// The exact totals (in units of 10^-28).
pub open spec fn cf_vals(op: Entries, cl: Entries, keys: Seq<Seq<char>>, cls: Seq<CfActivity>) -> (int, int, int, int)
    decreases keys.len(),
{
    if keys.len() == 0 || cls.len() != keys.len() {
        (0, 0, 0, 0)
    } else {
        let t = cf_vals(op, cl, keys.drop_last(), cls.drop_last());
        let k = keys.last();
        let d = amount_or_zero(cl, k).val() - amount_or_zero(op, k).val();
        match cls.last() {
            CfActivity::Operating => (t.0 - d, t.1, t.2, t.3),
            CfActivity::Investing => (t.0, t.1 - d, t.2, t.3),
            CfActivity::Financing => (t.0, t.1, t.2 - d, t.3),
            CfActivity::Cash => (t.0, t.1, t.2, t.3 + d),
        }
    }
}

/// The exact total change of all the accounts.
pub open spec fn total_change(op: Entries, cl: Entries, keys: Seq<Seq<char>>) -> int
    decreases keys.len(),
{
    if keys.len() == 0 {
        0
    } else {
        total_change(op, cl, keys.drop_last()) + amount_or_zero(cl, keys.last()).val() - amount_or_zero(
            op,
            keys.last(),
        ).val()
    }
}

/// Every amount has at most `s` digits and every change and running total fits at
/// `s`: the decimal arithmetic is then exact.
pub open spec fn cf_exact(op: Entries, cl: Entries, keys: Seq<Seq<char>>, cls: Seq<CfActivity>, s: nat) -> bool {
    &&& s <= 28
    &&& forall|i: int|
        0 <= i < keys.len() ==> {
            &&& amount_or_zero(op, #[trigger] keys[i]).wf()
            &&& amount_or_zero(cl, keys[i]).wf()
            &&& amount_or_zero(op, keys[i]).scl() <= s
            &&& amount_or_zero(cl, keys[i]).scl() <= s
            &&& fits_at(amount_or_zero(cl, keys[i]).val() - amount_or_zero(op, keys[i]).val(), s)
        }
    &&& forall|n: int|
        0 <= n <= keys.len() ==> {
            let t = #[trigger] cf_vals(op, cl, keys.subrange(0, n), cls.subrange(0, n));
            fits_at(t.0, s) && fits_at(t.1, s) && fits_at(t.2, s) && fits_at(t.3, s)
        }
}

/// `keys` lists, in strictly increasing order, the accounts of either period.
pub open spec fn is_key_union(keys: Seq<Seq<char>>, op: Entries, cl: Entries) -> bool {
    &&& forall|i: int, j: int| 0 <= i < j < keys.len() ==> seq_lt(#[trigger] keys[i], #[trigger] keys[j])
    &&& forall|k: Seq<char>|
        #![trigger lookup(op, k), lookup(cl, k)]
        (lookup(op, k) is Some || lookup(cl, k) is Some) <==> keys.contains(k)
}

/// `cls[i]` is what `f` returned for account `keys[i]` (passed as `args[i]`).
pub open spec fn classified_by<F: Fn(&str) -> CfActivity>(
    f: F,
    keys: Seq<Seq<char>>,
    cls: Seq<CfActivity>,
    args: Seq<&str>,
) -> bool {
    &&& cls.len() == keys.len()
    &&& args.len() == keys.len()
    &&& forall|i: int| 0 <= i < keys.len() ==> (#[trigger] args[i])@ == keys[i] && f.ensures((args[i],), cls[i])
}

/// The four lines of the result.
pub open spec fn cf_lines(t: (Dec, Dec, Dec, Dec)) -> Seq<CashFlowLine> {
    seq![
        CashFlowLine { activity: CfActivity::Operating, amount: t.0 },
        CashFlowLine { activity: CfActivity::Investing, amount: t.1 },
        CashFlowLine { activity: CfActivity::Financing, amount: t.2 },
        CashFlowLine { activity: CfActivity::Cash, amount: t.3 },
    ]
}

/// The three activities' flows add up to the cash change less the total change of
/// all accounts (which is zero when both periods' balances add up to zero).
pub proof fn lemma_activities_tie_to_cash(op: Entries, cl: Entries, keys: Seq<Seq<char>>, cls: Seq<CfActivity>)
    requires
        cls.len() == keys.len(),
    ensures
        ({
            let t = cf_vals(op, cl, keys, cls);
            t.0 + t.1 + t.2 == t.3 - total_change(op, cl, keys)
        }),
    decreases keys.len(),
{
    if keys.len() > 0 {
        lemma_activities_tie_to_cash(op, cl, keys.drop_last(), cls.drop_last());
    }
}

proof fn lemma_cf_prefix(op: Entries, cl: Entries, keys: Seq<Seq<char>>, cls: Seq<CfActivity>, n: int)
    requires
        0 <= n <= keys.len(),
        cls.len() == keys.len(),
        cf_totals(op, cl, keys, cls) is Some,
    ensures
        cf_totals(op, cl, keys.subrange(0, n), cls.subrange(0, n)) is Some,
    decreases keys.len() - n,
{
    if n < keys.len() {
        lemma_cf_prefix(op, cl, keys, cls, n + 1);
        assert(keys.subrange(0, n + 1).drop_last() =~= keys.subrange(0, n));
        assert(cls.subrange(0, n + 1).drop_last() =~= cls.subrange(0, n));
    } else {
        assert(keys.subrange(0, n) =~= keys);
        assert(cls.subrange(0, n) =~= cls);
    }
}

/// The cash flows of the three activities derived from the opening and closing
/// consolidated balances (debit-positive): every non-cash account's change counts
/// negated toward its activity (an asset's increase uses cash, a liability's or
/// equity's increase provides it), the cash accounts' change is returned as a fourth
/// line to tie against.  Accounts are taken in code order over both periods.
pub fn derive_cash_flow_worksheet<F: Fn(&str) -> CfActivity>(
    opening: &AmountMap,
    closing: &AmountMap,
    classify: F,
) -> (r: Vec<CashFlowLine>)
    requires
        forall|a: &str| classify.requires((a,)),
        forall|keys: Seq<Seq<char>>, cls: Seq<CfActivity>|
            is_key_union(keys, opening@, closing@) && cls.len() == keys.len() ==> (#[trigger] cf_totals(
                opening@,
                closing@,
                keys,
                cls,
            )) is Some,
    ensures
        exists|keys: Seq<Seq<char>>, cls: Seq<CfActivity>, args: Seq<&str>|
            #![trigger classified_by(classify, keys, cls, args)]
            {
                &&& is_key_union(keys, opening@, closing@)
                &&& classified_by(classify, keys, cls, args)
                &&& r@ == cf_lines(cf_totals(opening@, closing@, keys, cls)->0)
                &&& forall|s: nat|
                    #[trigger] cf_exact(opening@, closing@, keys, cls, s) ==> r@[0].amount.val() + r@[1].amount.val()
                        + r@[2].amount.val() == r@[3].amount.val() - total_change(opening@, closing@, keys)
            },
{
    let all = AmountMap::new().with_keys_of(opening).with_keys_of(closing);
    all.note_sorted();
    let ghost m = all@;
    let ghost keys = m.map_values(|e: (Seq<char>, Dec)| e.0);
    proof {
        assert forall|k: Seq<char>|
            #![trigger lookup(opening@, k), lookup(closing@, k)]
            (lookup(opening@, k) is Some || lookup(closing@, k) is Some) <==> keys.contains(k) by {
            lemma_index_of(m, k);
            if lookup(m, k) is Some {
                let ii = index_of(m, k);
                assert(keys[ii] == k);
            }
            if keys.contains(k) {
                let ii = choose|ii: int| 0 <= ii < keys.len() && keys[ii] == k;
                lemma_lookup_unique(m, k, ii);
            }
            assert(lookup(m, k) == lookup(m, k));
        }
        assert(is_key_union(keys, opening@, closing@));
    }
    let mut op = Dec::zero();
    let mut inv = Dec::zero();
    let mut fin = Dec::zero();
    let mut cash = Dec::zero();
    let ghost mut cls: Seq<CfActivity> = Seq::empty();
    let ghost mut args: Seq<&str> = Seq::empty();
    let mut i: usize = 0;
    proof {
        Dec::lemma_zero_one();
    }
    while i < all.len()
        invariant
            m == all@,
            keys == m.map_values(|e: (Seq<char>, Dec)| e.0),
            is_key_union(keys, opening@, closing@),
            i <= keys.len(),
            cls.len() == i,
            args.len() == i,
            forall|a: &str| classify.requires((a,)),
            forall|ks: Seq<Seq<char>>, cs: Seq<CfActivity>|
                is_key_union(ks, opening@, closing@) && cs.len() == ks.len() ==> (#[trigger] cf_totals(
                    opening@,
                    closing@,
                    ks,
                    cs,
                )) is Some,
            forall|j: int| 0 <= j < i ==> (#[trigger] args[j])@ == keys[j] && classify.ensures((args[j],), cls[j]),
            cf_totals(opening@, closing@, keys.subrange(0, i as int), cls) == Some((op, inv, fin, cash)),
            op.wf() && inv.wf() && fin.wf() && cash.wf(),
            forall|s: nat|
                #[trigger] cf_exact(opening@, closing@, keys.subrange(0, i as int), cls, s) ==> {
                    let t = cf_vals(opening@, closing@, keys.subrange(0, i as int), cls);
                    &&& op.val() == t.0 && inv.val() == t.1 && fin.val() == t.2 && cash.val() == t.3
                    &&& op.scl() <= s && inv.scl() <= s && fin.scl() <= s && cash.scl() <= s
                },
        decreases keys.len() - i,
    {
        let (k, _z) = all.entry(i);
        let a = classify(k);
        let ghost pre = keys.subrange(0, i as int);
        let ghost nxt = keys.subrange(0, i + 1);
        let ghost ncls = cls.push(a);
        proof {
            assert(keys[i as int] == k@);
            assert(nxt.drop_last() =~= pre);
            assert(ncls.drop_last() =~= cls);
            assert(nxt.last() == k@);
            let full = ncls + Seq::new((keys.len() - i - 1) as nat, |j: int| CfActivity::Cash);
            assert(full.len() == keys.len());
            assert(cf_totals(opening@, closing@, keys, full) is Some);
            lemma_cf_prefix(opening@, closing@, keys, full, i + 1);
            assert(full.subrange(0, i + 1) =~= ncls);
            Dec::lemma_zero_one();
        }
        let o = match opening.get(k) {
            Some(v) => v,
            None => Dec::zero(),
        };
        let c = match closing.get(k) {
            Some(v) => v,
            None => Dec::zero(),
        };
        o.note_wf();
        c.note_wf();
        let delta = dec_sub(c, o);
        let ghost (op0, inv0, fin0, cash0) = (op, inv, fin, cash);
        match a {
            CfActivity::Cash => {
                cash = dec_add(cash, delta);
            },
            CfActivity::Operating => {
                op = dec_add(op, delta.neg());
            },
            CfActivity::Investing => {
                inv = dec_add(inv, delta.neg());
            },
            CfActivity::Financing => {
                fin = dec_add(fin, delta.neg());
            },
        }
        proof {
            delta.lemma_negation();
            assert forall|s: nat| #[trigger] cf_exact(opening@, closing@, nxt, ncls, s) implies {
                let t = cf_vals(opening@, closing@, nxt, ncls);
                &&& op.val() == t.0 && inv.val() == t.1 && fin.val() == t.2 && cash.val() == t.3
                &&& op.scl() <= s && inv.scl() <= s && fin.scl() <= s && cash.scl() <= s
            } by {
                assert forall|j: int| 0 <= j < pre.len() implies {
                    &&& amount_or_zero(opening@, #[trigger] pre[j]).wf()
                    &&& amount_or_zero(closing@, pre[j]).wf()
                    &&& amount_or_zero(opening@, pre[j]).scl() <= s
                    &&& amount_or_zero(closing@, pre[j]).scl() <= s
                    &&& fits_at(amount_or_zero(closing@, pre[j]).val() - amount_or_zero(opening@, pre[j]).val(), s)
                } by {
                    assert(pre[j] == nxt[j]);
                }
                assert forall|n: int| 0 <= n <= pre.len() implies {
                    let t = #[trigger] cf_vals(opening@, closing@, pre.subrange(0, n), cls.subrange(0, n));
                    fits_at(t.0, s) && fits_at(t.1, s) && fits_at(t.2, s) && fits_at(t.3, s)
                } by {
                    assert(pre.subrange(0, n) =~= nxt.subrange(0, n));
                    assert(cls.subrange(0, n) =~= ncls.subrange(0, n));
                }
                assert(cf_exact(opening@, closing@, pre, cls, s));
                assert(nxt[i as int] == k@);
                assert(amount_or_zero(opening@, k@) == o);
                assert(amount_or_zero(closing@, k@) == c);
                lemma_sub_exact(c, o, s);
                assert(nxt.subrange(0, nxt.len() as int) =~= nxt);
                assert(ncls.subrange(0, ncls.len() as int) =~= ncls);
                let t = cf_vals(opening@, closing@, nxt.subrange(0, nxt.len() as int), ncls.subrange(0, ncls.len() as int));
                assert(fits_at(t.0, s) && fits_at(t.1, s) && fits_at(t.2, s) && fits_at(t.3, s));
                match a {
                    CfActivity::Cash => {
                        lemma_add_exact(cash0, delta, s);
                    },
                    CfActivity::Operating => {
                        lemma_add_exact(op0, delta.neg_val(), s);
                    },
                    CfActivity::Investing => {
                        lemma_add_exact(inv0, delta.neg_val(), s);
                    },
                    CfActivity::Financing => {
                        lemma_add_exact(fin0, delta.neg_val(), s);
                    },
                }
            }
            cls = ncls;
            args = args.push(k);
        }
        i = i + 1;
    }
    let r = vec![
        CashFlowLine { activity: CfActivity::Operating, amount: op },
        CashFlowLine { activity: CfActivity::Investing, amount: inv },
        CashFlowLine { activity: CfActivity::Financing, amount: fin },
        CashFlowLine { activity: CfActivity::Cash, amount: cash },
    ];
    proof {
        assert(keys.subrange(0, keys.len() as int) =~= keys);
        assert(r@ =~= cf_lines((op, inv, fin, cash)));
        lemma_activities_tie_to_cash(opening@, closing@, keys, cls);
        assert(classified_by(classify, keys, cls, args));
    }
    r
}

} // verus!
