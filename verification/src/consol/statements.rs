//! The consolidated statements: the balance sheet, income statement, cash-flow
//! statement and statement of changes in equity, as report definitions whose amount
//! cells read consolidated figures (`CG`, `CF`, `EQC`) and total them (`SUM`).
use vstd::prelude::*;
use crate::text::{copy_str, append_str, int_string, int_text};

verus! {

/// One line of a statement: its label, the amount formula (none: a heading), and
/// whether it is bold (totals).
#[derive(Debug)]
pub struct Line {
    pub label: &'static str,
    pub formula: Option<String>,
    pub bold: bool,
}

/// A line as (label, formula, bold).
pub open spec fn line_shape(l: Line) -> (Seq<char>, Option<Seq<char>>, bool) {
    (
        l.label@,
        match l.formula {
            Some(f) => Some(f@),
            None => None,
        },
        l.bold,
    )
}

/// The shapes of some lines.
pub open spec fn lines_shape(ls: Seq<Line>) -> Seq<(Seq<char>, Option<Seq<char>>, bool)> {
    ls.map_values(|l: Line| line_shape(l))
}

/// A heading line.
pub fn lbl(label: &'static str) -> (r: Line)
    ensures
        line_shape(r) == (label@, None::<Seq<char>>, false),
{
    Line { label, formula: None, bold: false }
}

/// An amount line.
pub fn amt(label: &'static str, formula: String) -> (r: Line)
    ensures
        line_shape(r) == (label@, Some(formula@), false),
{
    Line { label, formula: Some(formula), bold: false }
}

/// A total line (bold).
pub fn sub(label: &'static str, formula: String) -> (r: Line)
    ensures
        line_shape(r) == (label@, Some(formula@), true),
{
    Line { label, formula: Some(formula), bold: true }
}

/// `CG(0,@current,'acc')`: the consolidated amount of a group account at the current
/// node this period (debit-positive).
pub open spec fn cg_text(acc: Seq<char>) -> Seq<char> {
    "CG(0,@current,'"@ + acc + "')"@
}

/// The same, negated: credit-natured accounts shown positive.
pub open spec fn cg_neg_text(acc: Seq<char>) -> Seq<char> {
    "-CG(0,@current,'"@ + acc + "')"@
}

/// `CF(0,@current,'item')`: the consolidated amount of a cash-flow item.
pub open spec fn cf_text(item: Seq<char>) -> Seq<char> {
    "CF(0,@current,'"@ + item + "')"@
}

/// `-EQC(0,@current,'col')`: an equity-change column shown positive.
pub open spec fn eqc_neg_text(col: Seq<char>) -> Seq<char> {
    "-EQC(0,@current,'"@ + col + "')"@
}

fn wrap(head: &str, arg: &str) -> (r: String)
    ensures
        r@ == head@ + arg@ + "')"@,
{
    let mut s = copy_str(head);
    append_str(&mut s, arg);
    append_str(&mut s, "')");
    s
}

/// The `CG` fetch of a group account.
pub fn cg(acc: &str) -> (r: String)
    ensures
        r@ == cg_text(acc@),
{
    wrap("CG(0,@current,'", acc)
}

/// The negated `CG` fetch of a group account.
pub fn cg_neg(acc: &str) -> (r: String)
    ensures
        r@ == cg_neg_text(acc@),
{
    wrap("-CG(0,@current,'", acc)
}

/// The `CF` fetch of a cash-flow item.
pub fn cf(item: &str) -> (r: String)
    ensures
        r@ == cf_text(item@),
{
    wrap("CF(0,@current,'", item)
}

/// The negated `EQC` fetch of an equity-change column.
pub fn eqc_neg(col: &str) -> (r: String)
    ensures
        r@ == eqc_neg_text(col@),
{
    wrap("-EQC(0,@current,'", col)
}

/// A statement definition.
#[derive(Debug)]
pub struct Statement {
    pub code: &'static str,
    pub name: &'static str,
    pub lines: Vec<Line>,
}

/// The consolidated balance sheet (`CBS`): assets, liabilities and equity shown positive, the last line totalling liabilities and equity.
pub fn consol_balance_sheet() -> (r: Statement)
    ensures
        r.code@ == "CBS"@,
        r.name@ == "合并资产负债表"@,
        lines_shape(r.lines@) == seq![
            ("一、资产"@, None::<Seq<char>>, false),
            ("　货币资金"@, Some(cg_text("1001"@)), false),
            ("　应收账款"@, Some(cg_text("1122"@)), false),
            ("　长期股权投资"@, Some(cg_text("1511"@)), false),
            ("　商誉"@, Some(cg_text("1801"@)), false),
            ("资产合计"@, Some("SUM(B2:B5)"@), true),
            ("二、负债"@, None::<Seq<char>>, false),
            ("　应付账款"@, Some(cg_neg_text("2202"@)), false),
            ("负债合计"@, Some("SUM(B8:B8)"@), true),
            ("三、所有者权益"@, None::<Seq<char>>, false),
            ("　实收资本"@, Some(cg_neg_text("4001"@)), false),
            ("　未分配利润"@, Some(cg_neg_text("4104"@)), false),
            ("　外币折算差额"@, Some(cg_neg_text("4106"@)), false),
            ("　少数股东权益"@, Some(cg_neg_text("4400"@)), false),
            ("所有者权益合计"@, Some("SUM(B11:B14)"@), true),
            ("负债和所有者权益合计"@, Some("B9+B15"@), true)
        ],
{
    let lines: Vec<Line> = vec![
        lbl("一、资产"),
        amt("　货币资金", cg("1001")),
        amt("　应收账款", cg("1122")),
        amt("　长期股权投资", cg("1511")),
        amt("　商誉", cg("1801")),
        self::sub("资产合计", copy_str("SUM(B2:B5)")),
        lbl("二、负债"),
        amt("　应付账款", cg_neg("2202")),
        self::sub("负债合计", copy_str("SUM(B8:B8)")),
        lbl("三、所有者权益"),
        amt("　实收资本", cg_neg("4001")),
        amt("　未分配利润", cg_neg("4104")),
        amt("　外币折算差额", cg_neg("4106")),
        amt("　少数股东权益", cg_neg("4400")),
        self::sub("所有者权益合计", copy_str("SUM(B11:B14)")),
        self::sub("负债和所有者权益合计", copy_str("B9+B15"))
    ];
    proof {
        assert(lines_shape(lines@) =~= seq![
            ("一、资产"@, None::<Seq<char>>, false),
            ("　货币资金"@, Some(cg_text("1001"@)), false),
            ("　应收账款"@, Some(cg_text("1122"@)), false),
            ("　长期股权投资"@, Some(cg_text("1511"@)), false),
            ("　商誉"@, Some(cg_text("1801"@)), false),
            ("资产合计"@, Some("SUM(B2:B5)"@), true),
            ("二、负债"@, None::<Seq<char>>, false),
            ("　应付账款"@, Some(cg_neg_text("2202"@)), false),
            ("负债合计"@, Some("SUM(B8:B8)"@), true),
            ("三、所有者权益"@, None::<Seq<char>>, false),
            ("　实收资本"@, Some(cg_neg_text("4001"@)), false),
            ("　未分配利润"@, Some(cg_neg_text("4104"@)), false),
            ("　外币折算差额"@, Some(cg_neg_text("4106"@)), false),
            ("　少数股东权益"@, Some(cg_neg_text("4400"@)), false),
            ("所有者权益合计"@, Some("SUM(B11:B14)"@), true),
            ("负债和所有者权益合计"@, Some("B9+B15"@), true)
        ]);
    }
    Statement { code: "CBS", name: "合并资产负债表", lines }
}

/// The consolidated income statement (`CIS`): revenue less cost, the profit split between the parent and the minority.
pub fn consol_income_statement() -> (r: Statement)
    ensures
        r.code@ == "CIS"@,
        r.name@ == "合并利润表"@,
        lines_shape(r.lines@) == seq![
            ("一、营业收入"@, Some(cg_neg_text("6001"@)), false),
            ("　减:营业成本"@, Some(cg_text("6401"@)), false),
            ("二、营业利润"@, Some("B1-B2"@), true),
            ("三、利润总额"@, Some("B3"@), true),
            ("四、净利润归属"@, None::<Seq<char>>, false),
            ("　少数股东损益"@, Some(cg_text("4900"@)), false),
            ("　归属于母公司股东的净利润"@, Some("B4-B6"@), true)
        ],
{
    let lines: Vec<Line> = vec![
        amt("一、营业收入", cg_neg("6001")),
        amt("　减:营业成本", cg("6401")),
        self::sub("二、营业利润", copy_str("B1-B2")),
        self::sub("三、利润总额", copy_str("B3")),
        lbl("四、净利润归属"),
        amt("　少数股东损益", cg("4900")),
        self::sub("　归属于母公司股东的净利润", copy_str("B4-B6"))
    ];
    proof {
        assert(lines_shape(lines@) =~= seq![
            ("一、营业收入"@, Some(cg_neg_text("6001"@)), false),
            ("　减:营业成本"@, Some(cg_text("6401"@)), false),
            ("二、营业利润"@, Some("B1-B2"@), true),
            ("三、利润总额"@, Some("B3"@), true),
            ("四、净利润归属"@, None::<Seq<char>>, false),
            ("　少数股东损益"@, Some(cg_text("4900"@)), false),
            ("　归属于母公司股东的净利润"@, Some("B4-B6"@), true)
        ]);
    }
    Statement { code: "CIS", name: "合并利润表", lines }
}

/// The consolidated cash-flow statement (`CCF`): operating, investing and financing flows (inflows positive), each netted, and their sum.
pub fn consol_cash_flow() -> (r: Statement)
    ensures
        r.code@ == "CCF"@,
        r.name@ == "合并现金流量表"@,
        lines_shape(r.lines@) == seq![
            ("一、经营活动产生的现金流量"@, None::<Seq<char>>, false),
            ("　销售商品、提供劳务收到的现金"@, Some(cf_text("CF01"@)), false),
            ("　收到的其他与经营活动有关的现金"@, Some(cf_text("CF02"@)), false),
            ("　购买商品、接受劳务支付的现金"@, Some(cf_text("CF03"@)), false),
            ("　支付给职工以及为职工支付的现金"@, Some(cf_text("CF04"@)), false),
            ("　支付的各项税费"@, Some(cf_text("CF05"@)), false),
            ("　支付的其他与经营活动有关的现金"@, Some(cf_text("CF06"@)), false),
            ("　经营活动现金流量净额"@, Some("SUM(B2:B7)"@), true),
            ("二、投资活动产生的现金流量"@, None::<Seq<char>>, false),
            ("　收回投资收到的现金"@, Some(cf_text("CF11"@)), false),
            ("　购建固定资产、无形资产支付的现金"@, Some(cf_text("CF12"@)), false),
            ("　投资支付的现金"@, Some(cf_text("CF13"@)), false),
            ("　投资活动现金流量净额"@, Some("SUM(B10:B12)"@), true),
            ("三、筹资活动产生的现金流量"@, None::<Seq<char>>, false),
            ("　吸收投资收到的现金"@, Some(cf_text("CF21"@)), false),
            ("　取得借款收到的现金"@, Some(cf_text("CF22"@)), false),
            ("　偿还债务支付的现金"@, Some(cf_text("CF23"@)), false),
            ("　分配股利、利润或偿付利息支付的现金"@, Some(cf_text("CF24"@)), false),
            ("　筹资活动现金流量净额"@, Some("SUM(B15:B18)"@), true),
            ("四、现金及现金等价物净增加额"@, Some("B8+B13+B19"@), true)
        ],
{
    let lines: Vec<Line> = vec![
        lbl("一、经营活动产生的现金流量"),
        amt("　销售商品、提供劳务收到的现金", cf("CF01")),
        amt("　收到的其他与经营活动有关的现金", cf("CF02")),
        amt("　购买商品、接受劳务支付的现金", cf("CF03")),
        amt("　支付给职工以及为职工支付的现金", cf("CF04")),
        amt("　支付的各项税费", cf("CF05")),
        amt("　支付的其他与经营活动有关的现金", cf("CF06")),
        self::sub("　经营活动现金流量净额", copy_str("SUM(B2:B7)")),
        lbl("二、投资活动产生的现金流量"),
        amt("　收回投资收到的现金", cf("CF11")),
        amt("　购建固定资产、无形资产支付的现金", cf("CF12")),
        amt("　投资支付的现金", cf("CF13")),
        self::sub("　投资活动现金流量净额", copy_str("SUM(B10:B12)")),
        lbl("三、筹资活动产生的现金流量"),
        amt("　吸收投资收到的现金", cf("CF21")),
        amt("　取得借款收到的现金", cf("CF22")),
        amt("　偿还债务支付的现金", cf("CF23")),
        amt("　分配股利、利润或偿付利息支付的现金", cf("CF24")),
        self::sub("　筹资活动现金流量净额", copy_str("SUM(B15:B18)")),
        self::sub("四、现金及现金等价物净增加额", copy_str("B8+B13+B19"))
    ];
    proof {
        assert(lines_shape(lines@) =~= seq![
            ("一、经营活动产生的现金流量"@, None::<Seq<char>>, false),
            ("　销售商品、提供劳务收到的现金"@, Some(cf_text("CF01"@)), false),
            ("　收到的其他与经营活动有关的现金"@, Some(cf_text("CF02"@)), false),
            ("　购买商品、接受劳务支付的现金"@, Some(cf_text("CF03"@)), false),
            ("　支付给职工以及为职工支付的现金"@, Some(cf_text("CF04"@)), false),
            ("　支付的各项税费"@, Some(cf_text("CF05"@)), false),
            ("　支付的其他与经营活动有关的现金"@, Some(cf_text("CF06"@)), false),
            ("　经营活动现金流量净额"@, Some("SUM(B2:B7)"@), true),
            ("二、投资活动产生的现金流量"@, None::<Seq<char>>, false),
            ("　收回投资收到的现金"@, Some(cf_text("CF11"@)), false),
            ("　购建固定资产、无形资产支付的现金"@, Some(cf_text("CF12"@)), false),
            ("　投资支付的现金"@, Some(cf_text("CF13"@)), false),
            ("　投资活动现金流量净额"@, Some("SUM(B10:B12)"@), true),
            ("三、筹资活动产生的现金流量"@, None::<Seq<char>>, false),
            ("　吸收投资收到的现金"@, Some(cf_text("CF21"@)), false),
            ("　取得借款收到的现金"@, Some(cf_text("CF22"@)), false),
            ("　偿还债务支付的现金"@, Some(cf_text("CF23"@)), false),
            ("　分配股利、利润或偿付利息支付的现金"@, Some(cf_text("CF24"@)), false),
            ("　筹资活动现金流量净额"@, Some("SUM(B15:B18)"@), true),
            ("四、现金及现金等价物净增加额"@, Some("B8+B13+B19"@), true)
        ]);
    }
    Statement { code: "CCF", name: "合并现金流量表", lines }
}

/// The consolidated statement of changes in equity (`CSE`): opening balance, the year's movements by column, closing balance.
pub fn consol_equity_changes() -> (r: Statement)
    ensures
        r.code@ == "CSE"@,
        r.name@ == "合并所有者权益变动表"@,
        lines_shape(r.lines@) == seq![
            ("一、上年年末余额"@, Some(eqc_neg_text("EC01"@)), true),
            ("二、本年增减变动"@, None::<Seq<char>>, false),
            ("　(一)综合收益总额"@, Some(eqc_neg_text("EC02"@)), false),
            ("　(二)所有者投入和减少资本"@, Some(eqc_neg_text("EC03"@)), false),
            ("　(三)利润分配"@, Some(eqc_neg_text("EC04"@)), false),
            ("　(四)少数股东权益变动"@, Some(eqc_neg_text("EC05"@)), false),
            ("　(五)其他权益变动"@, Some(eqc_neg_text("EC06"@)), false),
            ("　本年增减变动小计"@, Some("SUM(B3:B7)"@), true),
            ("三、本年年末余额"@, Some("B1+B8"@), true)
        ],
{
    let lines: Vec<Line> = vec![
        self::sub("一、上年年末余额", eqc_neg("EC01")),
        lbl("二、本年增减变动"),
        amt("　(一)综合收益总额", eqc_neg("EC02")),
        amt("　(二)所有者投入和减少资本", eqc_neg("EC03")),
        amt("　(三)利润分配", eqc_neg("EC04")),
        amt("　(四)少数股东权益变动", eqc_neg("EC05")),
        amt("　(五)其他权益变动", eqc_neg("EC06")),
        self::sub("　本年增减变动小计", copy_str("SUM(B3:B7)")),
        self::sub("三、本年年末余额", copy_str("B1+B8"))
    ];
    proof {
        assert(lines_shape(lines@) =~= seq![
            ("一、上年年末余额"@, Some(eqc_neg_text("EC01"@)), true),
            ("二、本年增减变动"@, None::<Seq<char>>, false),
            ("　(一)综合收益总额"@, Some(eqc_neg_text("EC02"@)), false),
            ("　(二)所有者投入和减少资本"@, Some(eqc_neg_text("EC03"@)), false),
            ("　(三)利润分配"@, Some(eqc_neg_text("EC04"@)), false),
            ("　(四)少数股东权益变动"@, Some(eqc_neg_text("EC05"@)), false),
            ("　(五)其他权益变动"@, Some(eqc_neg_text("EC06"@)), false),
            ("　本年增减变动小计"@, Some("SUM(B3:B7)"@), true),
            ("三、本年年末余额"@, Some("B1+B8"@), true)
        ]);
    }
    Statement { code: "CSE", name: "合并所有者权益变动表", lines }
}

/// A label as a text-literal formula: quoted, its quotes escaped.
pub open spec fn escape_quotes(s: Seq<char>) -> Seq<char>
    decreases s.len(),
{
    if s.len() == 0 {
        Seq::empty()
    } else {
        escape_quotes(s.drop_last()) + if s.last() == '\'' {
            seq!['\\', '\'']
        } else {
            seq![s.last()]
        }
    }
}

/// One cell of a statement definition.
#[derive(Debug)]
pub struct CellDef {
    /// 1-based row.
    pub row: i64,
    /// 1-based column.
    pub col: i64,
    pub cell_ref: String,
    /// `text` or `amount`.
    pub value_type: String,
    pub formula: String,
    pub bold: bool,
}

/// A cell as (row, column, reference, value type, formula, bold).
pub open spec fn cell_shape(c: CellDef) -> (int, int, Seq<char>, Seq<char>, Seq<char>, bool) {
    (c.row as int, c.col as int, c.cell_ref@, c.value_type@, c.formula@, c.bold)
}

/// The cells of the line at a row: column A the label as a text literal, column B
/// its formula when it has one.
pub open spec fn line_cells(l: Line, row: int) -> Seq<(int, int, Seq<char>, Seq<char>, Seq<char>, bool)> {
    let a = (row, 1int, "A"@ + int_text(row), "text"@, "'"@ + escape_quotes(l.label@) + "'"@, l.bold);
    match l.formula {
        Some(f) => seq![a, (row, 2int, "B"@ + int_text(row), "amount"@, f@, l.bold)],
        None => seq![a],
    }
}

/// The cells of a statement's lines, row by row from row 1.
pub open spec fn statement_cells_spec(ls: Seq<Line>) -> Seq<(int, int, Seq<char>, Seq<char>, Seq<char>, bool)>
    decreases ls.len(),
{
    if ls.len() == 0 {
        Seq::empty()
    } else {
        statement_cells_spec(ls.drop_last()) + line_cells(ls.last(), ls.len() as int)
    }
}

fn quote_label(label: &str) -> (r: String)
    ensures
        r@ == "'"@ + escape_quotes(label@) + "'"@,
{
    let cs = crate::text::chars_of(label);
    let mut s = copy_str("'");
    let mut i: usize = 0;
    proof {
        assert(cs@.subrange(0, 0) =~= Seq::<char>::empty());
        assert(s@ =~= "'"@ + escape_quotes(cs@.subrange(0, 0)));
    }
    while i < cs.len()
        invariant
            i <= cs@.len(),
            cs@ == label@,
            s@ == "'"@ + escape_quotes(cs@.subrange(0, i as int)),
        decreases cs@.len() - i,
    {
        let ghost before = s@;
        proof {
            let nx = cs@.subrange(0, i + 1);
            assert(nx.drop_last() =~= cs@.subrange(0, i as int));
            assert(nx.last() == cs@[i as int]);
        }
        if cs[i] == '\'' {
            crate::text::push_char(&mut s, '\\');
            crate::text::push_char(&mut s, '\'');
            proof {
                assert(s@ =~= before + seq!['\\', '\'']);
            }
        } else {
            crate::text::push_char(&mut s, cs[i]);
            proof {
                assert(s@ =~= before + seq![cs@[i as int]]);
            }
        }
        i = i + 1;
    }
    proof {
        assert(cs@.subrange(0, cs@.len() as int) =~= cs@);
    }
    append_str(&mut s, "'");
    s
}

fn cell_ref(col: &str, row: i64) -> (r: String)
    ensures
        r@ == col@ + int_text(row as int),
{
    let mut s = copy_str(col);
    let n = int_string(row);
    append_str(&mut s, n.as_str());
    s
}

/// The cells a statement definition lays out (see `statement_cells_spec`).
pub fn statement_cells(st: &Statement) -> (r: Vec<CellDef>)
    requires
        st.lines@.len() < 0x7fff_ffff_ffff_ffff,
    ensures
        r@.map_values(|c: CellDef| cell_shape(c)) == statement_cells_spec(st.lines@),
{
    let mut out: Vec<CellDef> = Vec::new();
    let mut i: usize = 0;
    proof {
        assert(st.lines@.subrange(0, 0) =~= Seq::<Line>::empty());
        assert(out@.map_values(|c: CellDef| cell_shape(c)) =~= Seq::<(int, int, Seq<char>, Seq<char>, Seq<char>, bool)>::empty());
    }
    while i < st.lines.len()
        invariant
            i <= st.lines@.len(),
            st.lines@.len() < 0x7fff_ffff_ffff_ffff,
            out@.map_values(|c: CellDef| cell_shape(c)) == statement_cells_spec(st.lines@.subrange(0, i as int)),
        decreases st.lines@.len() - i,
    {
        let line = &st.lines[i];
        let row: i64 = (i + 1) as i64;
        let ghost before = out@;
        proof {
            let nx = st.lines@.subrange(0, i + 1);
            assert(nx.drop_last() =~= st.lines@.subrange(0, i as int));
            assert(nx.last() == st.lines@[i as int]);
            assert(nx.len() == row);
        }
        out.push(CellDef {
            row,
            col: 1,
            cell_ref: cell_ref("A", row),
            value_type: copy_str("text"),
            formula: quote_label(line.label),
            bold: line.bold,
        });
        if let Some(f) = &line.formula {
            out.push(CellDef {
                row,
                col: 2,
                cell_ref: cell_ref("B", row),
                value_type: copy_str("amount"),
                formula: f.clone(),
                bold: line.bold,
            });
        }
        proof {
            assert(out@.map_values(|c: CellDef| cell_shape(c)) =~= before.map_values(|c: CellDef| cell_shape(c))
                + line_cells(st.lines@[i as int], row as int));
        }
        i = i + 1;
    }
    proof {
        assert(st.lines@.subrange(0, st.lines@.len() as int) =~= st.lines@);
    }
    out
}

} // verus!
