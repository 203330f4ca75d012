//! Consolidation domain types.
//!
//! All amounts follow the debit-positive convention: debit +, credit −.  Assets and
//! expenses normally carry positive balances; liabilities, equity and income
//! negative ones.  An elimination line's net is `dr − cr`, and an entry is
//! balanced when its nets add up to zero.
use vstd::prelude::*;
use crate::decimal::{
    Dec, dec_add, dec_sub, dec_add_result, dec_sub_result, fits_at, max_nat, pow10,
    dec_checked_add, dec_checked_sub,
    lemma_add_exact, lemma_sub_exact, lemma_pow10_pos, lemma_val_multiple, lemma_multiple_add,
    lemma_fits_mono,
};
use crate::text::{lower_chars, chars_of, chars_eq, lower_seq, copy_str, str_eq};

verus! {

/// Nature of an account (decides NCI attribution, statement section, display sign).
#[derive(Clone, Copy, Debug, PartialEq, Eq, Structural)]
pub enum AccountType {
    Asset,
    Liability,
    Equity,
    Income,
    Expense,
    Nci,
}

/// The account type named by a (lower-cased) text.
pub open spec fn account_type_of_text(t: Seq<char>) -> Option<AccountType> {
    if t == "asset"@ || t == "资产"@ {
        Some(AccountType::Asset)
    } else if t == "liability"@ || t == "liab"@ || t == "负债"@ {
        Some(AccountType::Liability)
    } else if t == "equity"@ || t == "权益"@ {
        Some(AccountType::Equity)
    } else if t == "income"@ || t == "revenue"@ || t == "收入"@ {
        Some(AccountType::Income)
    } else if t == "expense"@ || t == "cost"@ || t == "费用"@ {
        Some(AccountType::Expense)
    } else if t == "nci"@ || t == "少数股东权益"@ {
        Some(AccountType::Nci)
    } else {
        None
    }
}

/// Whether `t` equals the literal `lit`.
fn is_lit(t: &Vec<char>, lit: &str) -> (r: bool)
    ensures
        r == (t@ == lit@),
{
    let l = chars_of(lit);
    chars_eq(t.as_slice(), l.as_slice())
}

impl AccountType {
    /// Whether the normal balance is a debit (assets, expenses).
    pub fn normal_debit(self) -> (r: bool)
        ensures
            r == (self is Asset || self is Expense),
    {
        match self {
            AccountType::Asset | AccountType::Expense => true,
            _ => false,
        }
    }

    /// Whether an equity account (including NCI).
    pub fn is_equity(self) -> (r: bool)
        ensures
            r == (self is Equity || self is Nci),
    {
        match self {
            AccountType::Equity | AccountType::Nci => true,
            _ => false,
        }
    }

    /// Whether a profit-and-loss account (income, expense).
    pub fn is_pl(self) -> (r: bool)
        ensures
            r == (self is Income || self is Expense),
    {
        match self {
            AccountType::Income | AccountType::Expense => true,
            _ => false,
        }
    }

    /// Parses a type name, ASCII case-insensitively.
    pub fn parse(s: &str) -> (r: Option<AccountType>)
        ensures
            r == account_type_of_text(lower_seq(s@)),
    {
        let t = lower_chars(s);
        if is_lit(&t, "asset") || is_lit(&t, "资产") {
            Some(AccountType::Asset)
        } else if is_lit(&t, "liability") || is_lit(&t, "liab") || is_lit(&t, "负债") {
            Some(AccountType::Liability)
        } else if is_lit(&t, "equity") || is_lit(&t, "权益") {
            Some(AccountType::Equity)
        } else if is_lit(&t, "income") || is_lit(&t, "revenue") || is_lit(&t, "收入") {
            Some(AccountType::Income)
        } else if is_lit(&t, "expense") || is_lit(&t, "cost") || is_lit(&t, "费用") {
            Some(AccountType::Expense)
        } else if is_lit(&t, "nci") || is_lit(&t, "少数股东权益") {
            Some(AccountType::Nci)
        } else {
            None
        }
    }
}

/// Consolidation method.
#[derive(Clone, Copy, Debug, PartialEq, Eq, Structural)]
pub enum ConsolMethod {
    /// Full consolidation (control): 100% in, eliminations, NCI.
    Full,
    /// Equity method (associates/JVs): share recognised, not line by line.
    Equity,
    /// Proportional consolidation: in at the ownership share.
    Proportional,
    /// Cost method: individual statements only.
    Cost,
}

/// The method named by a (lower-cased) text; anything unknown is the cost method.
pub open spec fn method_of_text(t: Seq<char>) -> ConsolMethod {
    if t == "full"@ || t == "全额"@ || t == "全额合并"@ {
        ConsolMethod::Full
    } else if t == "equity"@ || t == "权益"@ || t == "权益法"@ {
        ConsolMethod::Equity
    } else if t == "proportional"@ || t == "proportion"@ || t == "比例"@ {
        ConsolMethod::Proportional
    } else {
        ConsolMethod::Cost
    }
}

/// The inclusion ratio of a method: Full 1, Proportional the ownership, others 0.
pub open spec fn include_ratio_spec(m: ConsolMethod, ownership: Dec) -> Dec {
    match m {
        ConsolMethod::Full => Dec::one_val(),
        ConsolMethod::Proportional => ownership,
        _ => Dec::zero_val(),
    }
}

impl ConsolMethod {
    /// Parses a method name, ASCII case-insensitively (unknown names: cost method).
    pub fn parse(s: &str) -> (r: ConsolMethod)
        ensures
            r == method_of_text(lower_seq(s@)),
    {
        let t = lower_chars(s);
        if is_lit(&t, "full") || is_lit(&t, "全额") || is_lit(&t, "全额合并") {
            ConsolMethod::Full
        } else if is_lit(&t, "equity") || is_lit(&t, "权益") || is_lit(&t, "权益法") {
            ConsolMethod::Equity
        } else if is_lit(&t, "proportional") || is_lit(&t, "proportion") || is_lit(&t, "比例") {
            ConsolMethod::Proportional
        } else {
            ConsolMethod::Cost
        }
    }

    /// Inclusion ratio (Full = 1, Proportional = ownership, Equity/Cost = 0).
    pub fn include_ratio(self, ownership: Dec) -> (r: Dec)
        ensures
            r == include_ratio_spec(self, ownership),
            self is Full ==> r == Dec::one_val(),
            self is Proportional ==> r == ownership,
            (self is Equity || self is Cost) ==> r.val() == 0,
    {
        proof {
            Dec::lemma_zero_one();
        }
        match self {
            ConsolMethod::Full => Dec::one(),
            ConsolMethod::Proportional => ownership,
            _ => Dec::zero(),
        }
    }
}

/// A group chart-of-accounts line.
#[derive(Clone, Debug)]
pub struct GroupAccount {
    pub code: String,
    pub name: String,
    pub account_type: AccountType,
}

/// One entity's balance on one group account (mapped, translated, debit-positive).
#[derive(Clone, Debug)]
pub struct EntityBalance {
    pub entity: String,
    pub account: String,
    pub amount: Dec,
}

/// A node of the consolidation scope.
#[derive(Clone, Debug)]
pub struct ScopeNode {
    pub code: String,
    pub name: String,
    pub parent: Option<String>,
    pub method: ConsolMethod,
    /// Parent's ownership share (0..1).
    pub ownership: Dec,
    pub is_leaf: bool,
    /// Depth (1 = top).
    pub level: i32,
}

/// One elimination line (net = dr − cr).
#[derive(Debug, PartialEq)]
pub struct ElimLine {
    pub account: String,
    pub dr: Dec,
    pub cr: Dec,
    pub partner: Option<String>,
}

impl Clone for ElimLine {
    fn clone(&self) -> (r: Self)
        ensures
            r == *self,
    {
        ElimLine {
            account: self.account.clone(),
            dr: self.dr,
            cr: self.cr,
            partner: match &self.partner {
                Some(p) => Some(p.clone()),
                None => None,
            },
        }
    }
}

/// An elimination/adjustment entry of the consolidation ledger.
#[derive(Clone, Debug, PartialEq)]
pub struct ElimEntry {
    pub elim_type: String,
    pub source_rule: String,
    pub is_opening: bool,
    pub lines: Vec<ElimLine>,
}

/// One worksheet cell: the four columns of one account at one node.
#[derive(Clone, Debug, PartialEq)]
pub struct WorksheetCell {
    pub node: String,
    pub account: String,
    pub individual: Dec,
    pub adjust: Dec,
    pub elim: Dec,
    /// individual + adjust + elim.
    pub consolidated: Dec,
}

/// The exact net value of a line (dr − cr, in units of 10^-28).
pub open spec fn line_net_val(l: ElimLine) -> int {
    l.dr.val() - l.cr.val()
}

/// The exact sum of the nets of lines.
pub open spec fn nets_val(lines: Seq<ElimLine>) -> int
    decreases lines.len(),
{
    if lines.len() == 0 {
        0
    } else {
        nets_val(lines.drop_last()) + line_net_val(lines.last())
    }
}

/// The running sum of nets the way `Decimal` computes it (None on overflow).
pub open spec fn fold_nets(lines: Seq<ElimLine>) -> Option<Dec>
    decreases lines.len(),
{
    if lines.len() == 0 {
        Some(Dec::zero_val())
    } else {
        match fold_nets(lines.drop_last()) {
            Some(acc) => match dec_sub_result(lines.last().dr, lines.last().cr) {
                Some(n) => dec_add_result(acc, n),
                None => None,
            },
            None => None,
        }
    }
}

/// Every amount of the lines has at most `s` fractional digits, each net and every
/// running sum of nets fits at scale `s`: the decimal sums are then exact.
pub open spec fn nets_exact(lines: Seq<ElimLine>, s: nat) -> bool {
    &&& s <= 28
    &&& forall|i: int|
        0 <= i < lines.len() ==> {
            &&& (#[trigger] lines[i]).dr.wf()
            &&& lines[i].cr.wf()
            &&& lines[i].dr.scl() <= s
            &&& lines[i].cr.scl() <= s
            &&& fits_at(line_net_val(lines[i]), s)
        }
    &&& forall|k: int| 0 <= k <= lines.len() ==> fits_at(#[trigger] nets_val(lines.subrange(0, k)), s)
}

/// The entry's lines add up to zero exactly, with exact decimal sums.
pub open spec fn balanced_exact(e: ElimEntry) -> bool {
    exists|s: nat| nets_exact(e.lines@, s) && nets_val(e.lines@) == 0
}

/// Lines whose account is `account`.
pub open spec fn lines_for(lines: Seq<ElimLine>, account: Seq<char>) -> Seq<ElimLine> {
    lines.filter(|l: ElimLine| l.account@ == account)
}

/// What `ElimEntry::is_balanced` computes.
pub open spec fn is_balanced_spec(e: ElimEntry) -> bool {
    fold_nets(e.lines@) matches Some(t) && t.val() == 0
}

impl ElimLine {
    /// A line without partner.
    pub fn new(account: &str, dr: Dec, cr: Dec) -> (r: ElimLine)
        ensures
            r.account@ == account@,
            r.dr == dr,
            r.cr == cr,
            r.partner is None,
    {
        ElimLine { account: copy_str(account), dr, cr, partner: None }
    }

    /// Debit-positive net (dr − cr), None when it does not fit.
    pub fn try_net(&self) -> (r: Option<Dec>)
        ensures
            r == dec_sub_result(self.dr, self.cr),
    {
        match dec_checked_sub(self.dr, self.cr) {
            Some(_) => Some(self.net()),
            None => None,
        }
    }

    /// Debit-positive net (dr − cr).
    pub fn net(&self) -> (r: Dec)
        requires
            dec_sub_result(self.dr, self.cr) is Some,
        ensures
            r == dec_sub_result(self.dr, self.cr)->0,
            r.wf(),
            fits_at(line_net_val(*self), max_nat(self.dr.scl(), self.cr.scl())) ==> r.val()
                == line_net_val(*self) && r.scl() <= max_nat(self.dr.scl(), self.cr.scl()),
    {
        dec_sub(self.dr, self.cr)
    }
}

/// One step of the exact running sum of nets.
proof fn lemma_nets_step(lines: Seq<ElimLine>, i: int, acc: Dec, s: nat)
    requires
        nets_exact(lines, s),
        0 <= i < lines.len(),
        acc.wf(),
        acc.scl() <= s,
        acc.val() == nets_val(lines.subrange(0, i)),
    ensures
        fits_at(line_net_val(lines[i]), max_nat(lines[i].dr.scl(), lines[i].cr.scl())),
        lines.subrange(0, i + 1).drop_last() == lines.subrange(0, i),
        nets_val(lines.subrange(0, i + 1)) == acc.val() + line_net_val(lines[i]),
        fits_at(nets_val(lines.subrange(0, i + 1)), s),
{
    let l = lines[i];
    lemma_sub_exact(l.dr, l.cr, s);
    assert(lines.subrange(0, i + 1).drop_last() =~= lines.subrange(0, i));
    assert(lines.subrange(0, i + 1).last() == l);
}

impl ElimEntry {
    /// Whether the entry balances (its nets add up to zero).
    pub fn is_balanced(&self) -> (r: bool)
        requires
            fold_nets(self.lines@) is Some || exists|s: nat| nets_exact(self.lines@, s),
        ensures
            r == is_balanced_spec(*self),
            forall|s: nat| nets_exact(self.lines@, s) ==> r == (nets_val(self.lines@) == 0),
    {
        let sum = self.sum_nets();
        sum.is_zero()
    }

    /// The entry's net effect on one account (sum of that account's line nets).
    pub fn net_for(&self, account: &str) -> (r: Dec)
        requires
            fold_nets(lines_for(self.lines@, account@)) is Some || exists|s: nat| nets_exact(
                lines_for(self.lines@, account@),
                s,
            ),
        ensures
            r == fold_nets(lines_for(self.lines@, account@))->0,
            forall|s: nat|
                nets_exact(lines_for(self.lines@, account@), s) ==> r.val() == nets_val(
                    lines_for(self.lines@, account@),
                ),
    {
        let sel = self.select_lines(account);
        let e = ElimEntry {
            elim_type: String::new(),
            source_rule: String::new(),
            is_opening: false,
            lines: sel,
        };
        e.sum_nets()
    }

    /// The lines posting to one account, in order.
    fn select_lines(&self, account: &str) -> (r: Vec<ElimLine>)
        ensures
            r@ == lines_for(self.lines@, account@),
    {
        let ghost all = self.lines@;
        let mut sel: Vec<ElimLine> = Vec::new();
        let mut i: usize = 0;
        proof {
            reveal(Seq::filter);
            assert(lines_for(all.subrange(0, 0), account@) =~= Seq::<ElimLine>::empty());
        }
        while i < self.lines.len()
            invariant
                i <= all.len(),
                all == self.lines@,
                sel@ == lines_for(all.subrange(0, i as int), account@),
            decreases all.len() - i,
        {
            let acc_i = self.lines[i].account.as_str();
            let is_acc = str_eq(acc_i, account);
            assert(acc_i@ == all[i as int].account@);
            if is_acc {
                sel.push(self.lines[i].clone());
            }
            proof {
                reveal(Seq::filter);
                let nx = all.subrange(0, i + 1);
                assert(nx.drop_last() =~= all.subrange(0, i as int));
                assert(nx.last() == all[i as int]);
                assert(is_acc == (all[i as int].account@ == account@));
            }
            i = i + 1;
        }
        proof {
            assert(all.subrange(0, all.len() as int) =~= all);
        }
        sel
    }

    /// The entry's net effect on one account, None where the sum overflows.
    pub fn try_net_for(&self, account: &str) -> (r: Option<Dec>)
        ensures
            r == fold_nets(lines_for(self.lines@, account@)),
    {
        let sel = self.select_lines(account);
        let mut sum = Dec::zero();
        let mut i: usize = 0;
        proof {
            Dec::lemma_zero_one();
            assert(sel@.subrange(0, 0) =~= Seq::<ElimLine>::empty());
        }
        while i < sel.len()
            invariant
                i <= sel@.len(),
                sel@ == lines_for(self.lines@, account@),
                fold_nets(sel@.subrange(0, i as int)) == Some(sum),
            decreases sel@.len() - i,
        {
            let ghost nxt = sel@.subrange(0, i + 1);
            proof {
                assert(nxt.drop_last() =~= sel@.subrange(0, i as int));
                assert(nxt.last() == sel@[i as int]);
            }
            let l = &sel[i];
            let n = match dec_checked_sub(l.dr, l.cr) {
                Some(n) => n,
                None => {
                    proof {
                        if fold_nets(sel@) is Some {
                            lemma_fold_prefix_some(sel@, i + 1);
                        }
                    }
                    return None;
                },
            };
            sum = match dec_checked_add(sum, n) {
                Some(t) => t,
                None => {
                    proof {
                        if fold_nets(sel@) is Some {
                            lemma_fold_prefix_some(sel@, i + 1);
                        }
                    }
                    return None;
                },
            };
            i = i + 1;
        }
        proof {
            assert(sel@.subrange(0, sel@.len() as int) =~= sel@);
        }
        Some(sum)
    }

    /// The running sum of all nets.
    fn sum_nets(&self) -> (r: Dec)
        requires
            fold_nets(self.lines@) is Some || exists|s: nat| nets_exact(self.lines@, s),
        ensures
            fold_nets(self.lines@) == Some(r),
            forall|s: nat| nets_exact(self.lines@, s) ==> r.val() == nets_val(self.lines@),
    {
        let mut sum = Dec::zero();
        let mut i: usize = 0;
        proof {
            Dec::lemma_zero_one();
            assert(self.lines@.subrange(0, 0) =~= Seq::<ElimLine>::empty());
        }
        while i < self.lines.len()
            invariant
                i <= self.lines@.len(),
                fold_nets(self.lines@) is Some || exists|s: nat| nets_exact(self.lines@, s),
                fold_nets(self.lines@.subrange(0, i as int)) == Some(sum),
                sum.wf(),
                forall|s: nat|
                    nets_exact(self.lines@, s) ==> sum.val() == nets_val(
                        self.lines@.subrange(0, i as int),
                    ) && sum.scl() <= s,
            decreases self.lines@.len() - i,
        {
            let ghost pre = self.lines@.subrange(0, i as int);
            let ghost nxt = self.lines@.subrange(0, i + 1);
            proof {
                assert(nxt.drop_last() =~= pre);
                assert(nxt.last() == self.lines@[i as int]);
                if fold_nets(self.lines@) is Some {
                    lemma_fold_prefix_some(self.lines@, i + 1);
                }
            }
            let l = &self.lines[i];
            let on = dec_checked_sub(l.dr, l.cr);
            let n = match on {
                Some(n) => n,
                None => {
                    proof {
                        if fold_nets(self.lines@) is None {
                            let s = choose|s: nat| nets_exact(self.lines@, s);
                            lemma_nets_step(self.lines@, i as int, sum, s);
                        }
                    }
                    return sum;
                },
            };
            proof {
                assert forall|s: nat| nets_exact(self.lines@, s) implies fits_at(
                    sum.val() + n.val(),
                    max_nat(sum.scl(), n.scl()),
                ) && n.val() == line_net_val(*l) && n.scl() <= s by {
                    lemma_nets_step(self.lines@, i as int, sum, s);
                    lemma_add_exact(sum, n, s);
                }
            }
            let ghost old_sum = sum;
            let os = dec_checked_add(sum, n);
            sum = match os {
                Some(t) => t,
                None => {
                    proof {
                        if fold_nets(self.lines@) is None {
                            let s = choose|s: nat| nets_exact(self.lines@, s);
                            lemma_nets_step(self.lines@, i as int, old_sum, s);
                            lemma_add_exact(old_sum, n, s);
                        }
                    }
                    return sum;
                },
            };
            proof {
                assert forall|s: nat| nets_exact(self.lines@, s) implies sum.val() == nets_val(
                    nxt,
                ) && sum.scl() <= s by {
                    lemma_nets_step(self.lines@, i as int, old_sum, s);
                    lemma_add_exact(old_sum, n, s);
                }
            }
            i = i + 1;
        }
        proof {
            assert(self.lines@.subrange(0, self.lines@.len() as int) =~= self.lines@);
        }
        sum
    }
}

/// A defined running sum is defined on every prefix.
pub proof fn lemma_fold_prefix_some(lines: Seq<ElimLine>, k: int)
    requires
        0 <= k <= lines.len(),
        fold_nets(lines) is Some,
    ensures
        fold_nets(lines.subrange(0, k)) is Some,
    decreases lines.len() - k,
{
    if k < lines.len() {
        lemma_fold_prefix_some(lines, k + 1);
        assert(lines.subrange(0, k + 1).drop_last() =~= lines.subrange(0, k));
    } else {
        assert(lines.subrange(0, k) =~= lines);
    }
}

} // verus!
