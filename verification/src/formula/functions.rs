//! The catalogue entries: one function per report function, giving its metadata.
use vstd::prelude::*;
use crate::formula::registry::{
    FnCategory, Param, ParamKind, Prototype, RptFunction, ValueType, WizardSpec, p, p_opt, params_shape,
    param_shape, category_text,
};
use crate::text::{seq_lt, str_lt, str_eq, lemma_seq_lt_trans, lemma_seq_lt_irrefl, lemma_seq_lt_asym};

verus! {

/// The catalogue entry of the closing balance (`QM`).
pub open spec fn is_qm(r: RptFunction) -> bool {
    &&& r.name@ == "QM"@
    &&& r.category == FnCategory::Fetch
    &&& r.ret_type == ValueType::Amount
    &&& r.is_fetch == true
    &&& params_shape(r.prototype.params@) == seq![("期间"@, ParamKind::Period, false, Some("0"@), "0本期/-1上期/-12上年同期，或绝对期间码"@), ("组织机构"@, ParamKind::Org, false, Some("@current"@), "@current 当前组织，或组织码"@), ("取数对象"@, ParamKind::Object, true, None::<Seq<char>>, "科目码或元素码"@)]
    &&& r.prototype.variadic is None
    &&& r.help@ == "期末余额"@
    &&& r.example@ == "QM(0,@current,'1001')"@
    &&& r.wizard.preview == true
}

/// The closing balance (`QM`).
pub fn qm() -> (r: RptFunction)
    ensures
        is_qm(r),
{
    let params: Vec<Param> = vec![
                p_opt("期间", ParamKind::Period, Some("0"), "0本期/-1上期/-12上年同期，或绝对期间码"),
                p_opt("组织机构", ParamKind::Org, Some("@current"), "@current 当前组织，或组织码"),
                p("取数对象", ParamKind::Object, "科目码或元素码"),
            ];
    proof {
        assert(params_shape(params@) =~= seq![("期间"@, ParamKind::Period, false, Some("0"@), "0本期/-1上期/-12上年同期，或绝对期间码"@), ("组织机构"@, ParamKind::Org, false, Some("@current"@), "@current 当前组织，或组织码"@), ("取数对象"@, ParamKind::Object, true, None::<Seq<char>>, "科目码或元素码"@)]);
    }
    RptFunction {
        name: "QM",
        category: FnCategory::Fetch,
        ret_type: ValueType::Amount,
        is_fetch: true,
        prototype: Prototype { params, variadic: None },
        help: "期末余额",
        example: "QM(0,@current,'1001')",
        wizard: WizardSpec { preview: true },
    }
}

/// The catalogue entry of the opening balance (`QC`).
pub open spec fn is_qc(r: RptFunction) -> bool {
    &&& r.name@ == "QC"@
    &&& r.category == FnCategory::Fetch
    &&& r.ret_type == ValueType::Amount
    &&& r.is_fetch == true
    &&& params_shape(r.prototype.params@) == seq![("期间"@, ParamKind::Period, false, Some("0"@), "0本期/-1上期/-12上年同期，或绝对期间码"@), ("组织机构"@, ParamKind::Org, false, Some("@current"@), "@current 当前组织，或组织码"@), ("取数对象"@, ParamKind::Object, true, None::<Seq<char>>, "科目码或元素码"@)]
    &&& r.prototype.variadic is None
    &&& r.help@ == "期初余额"@
    &&& r.example@ == "QC(0,@current,'1001')"@
    &&& r.wizard.preview == true
}

/// The opening balance (`QC`).
pub fn qc() -> (r: RptFunction)
    ensures
        is_qc(r),
{
    let params: Vec<Param> = vec![
                p_opt("期间", ParamKind::Period, Some("0"), "0本期/-1上期/-12上年同期，或绝对期间码"),
                p_opt("组织机构", ParamKind::Org, Some("@current"), "@current 当前组织，或组织码"),
                p("取数对象", ParamKind::Object, "科目码或元素码"),
            ];
    proof {
        assert(params_shape(params@) =~= seq![("期间"@, ParamKind::Period, false, Some("0"@), "0本期/-1上期/-12上年同期，或绝对期间码"@), ("组织机构"@, ParamKind::Org, false, Some("@current"@), "@current 当前组织，或组织码"@), ("取数对象"@, ParamKind::Object, true, None::<Seq<char>>, "科目码或元素码"@)]);
    }
    RptFunction {
        name: "QC",
        category: FnCategory::Fetch,
        ret_type: ValueType::Amount,
        is_fetch: true,
        prototype: Prototype { params, variadic: None },
        help: "期初余额",
        example: "QC(0,@current,'1001')",
        wizard: WizardSpec { preview: true },
    }
}

/// The catalogue entry of the period's movement (`FS`), by direction.
pub open spec fn is_fs(r: RptFunction) -> bool {
    &&& r.name@ == "FS"@
    &&& r.category == FnCategory::Fetch
    &&& r.ret_type == ValueType::Amount
    &&& r.is_fetch == true
    &&& params_shape(r.prototype.params@) == seq![("期间"@, ParamKind::Period, false, Some("0"@), "0本期/-1上期，或绝对期间码"@), ("组织机构"@, ParamKind::Org, false, Some("@current"@), "@current 当前组织，或组织码"@), ("取数对象"@, ParamKind::Object, true, None::<Seq<char>>, "科目码或元素码"@), ("方向"@, ParamKind::Direction, false, Some("net"@), "debit借方/credit贷方/net净额"@)]
    &&& r.prototype.variadic is None
    &&& r.help@ == "本期发生额"@
    &&& r.example@ == "FS(0,@current,'1001','debit')"@
    &&& r.wizard.preview == true
}

/// The period's movement (`FS`), by direction.
pub fn fs() -> (r: RptFunction)
    ensures
        is_fs(r),
{
    let params: Vec<Param> = vec![
                p_opt("期间", ParamKind::Period, Some("0"), "0本期/-1上期，或绝对期间码"),
                p_opt("组织机构", ParamKind::Org, Some("@current"), "@current 当前组织，或组织码"),
                p("取数对象", ParamKind::Object, "科目码或元素码"),
                p_opt("方向", ParamKind::Direction, Some("net"), "debit借方/credit贷方/net净额"),
            ];
    proof {
        assert(params_shape(params@) =~= seq![("期间"@, ParamKind::Period, false, Some("0"@), "0本期/-1上期，或绝对期间码"@), ("组织机构"@, ParamKind::Org, false, Some("@current"@), "@current 当前组织，或组织码"@), ("取数对象"@, ParamKind::Object, true, None::<Seq<char>>, "科目码或元素码"@), ("方向"@, ParamKind::Direction, false, Some("net"@), "debit借方/credit贷方/net净额"@)]);
    }
    RptFunction {
        name: "FS",
        category: FnCategory::Fetch,
        ret_type: ValueType::Amount,
        is_fetch: true,
        prototype: Prototype { params, variadic: None },
        help: "本期发生额",
        example: "FS(0,@current,'1001','debit')",
        wizard: WizardSpec { preview: true },
    }
}

/// The catalogue entry of the net movement, debit less credit (`JE`).
pub open spec fn is_je(r: RptFunction) -> bool {
    &&& r.name@ == "JE"@
    &&& r.category == FnCategory::Fetch
    &&& r.ret_type == ValueType::Amount
    &&& r.is_fetch == true
    &&& params_shape(r.prototype.params@) == seq![("期间"@, ParamKind::Period, false, Some("0"@), "0本期/-1上期，或绝对期间码"@), ("组织机构"@, ParamKind::Org, false, Some("@current"@), "@current 当前组织，或组织码"@), ("取数对象"@, ParamKind::Object, true, None::<Seq<char>>, "科目码或元素码"@)]
    &&& r.prototype.variadic is None
    &&& r.help@ == "净发生额（借-贷）"@
    &&& r.example@ == "JE(0,@current,'1001')"@
    &&& r.wizard.preview == true
}

/// The net movement, debit less credit (`JE`).
pub fn je() -> (r: RptFunction)
    ensures
        is_je(r),
{
    let params: Vec<Param> = vec![
                p_opt("期间", ParamKind::Period, Some("0"), "0本期/-1上期，或绝对期间码"),
                p_opt("组织机构", ParamKind::Org, Some("@current"), "@current 当前组织，或组织码"),
                p("取数对象", ParamKind::Object, "科目码或元素码"),
            ];
    proof {
        assert(params_shape(params@) =~= seq![("期间"@, ParamKind::Period, false, Some("0"@), "0本期/-1上期，或绝对期间码"@), ("组织机构"@, ParamKind::Org, false, Some("@current"@), "@current 当前组织，或组织码"@), ("取数对象"@, ParamKind::Object, true, None::<Seq<char>>, "科目码或元素码"@)]);
    }
    RptFunction {
        name: "JE",
        category: FnCategory::Fetch,
        ret_type: ValueType::Amount,
        is_fetch: true,
        prototype: Prototype { params, variadic: None },
        help: "净发生额（借-贷）",
        example: "JE(0,@current,'1001')",
        wizard: WizardSpec { preview: true },
    }
}

/// The catalogue entry of a cell of this or another report (`REF`).
pub open spec fn is_ref(r: RptFunction) -> bool {
    &&& r.name@ == "REF"@
    &&& r.category == FnCategory::Ref
    &&& r.ret_type == ValueType::Amount
    &&& r.is_fetch == true
    &&& params_shape(r.prototype.params@) == seq![("报表"@, ParamKind::Report, true, None::<Seq<char>>, "目标报表编码（本表或他表）"@), ("版本"@, ParamKind::Version, true, None::<Seq<char>>, "目标报表版本编码"@), ("单元格"@, ParamKind::CellRef, true, None::<Seq<char>>, "目标单元格 A1 引用，如 C5"@), ("组织机构"@, ParamKind::Org, false, Some("@current"@), "缺省随当前组织"@), ("期间"@, ParamKind::Period, false, Some("0"@), "缺省随当前期间"@)]
    &&& r.prototype.variadic is None
    &&& r.help@ == "表间取数（递归解析目标格，检测循环引用）"@
    &&& r.example@ == "REF('PROFIT','v1',B20)"@
    &&& r.wizard.preview == true
}

/// A cell of this or another report (`REF`).
pub fn ref_fn() -> (r: RptFunction)
    ensures
        is_ref(r),
{
    let params: Vec<Param> = vec![
                p("报表", ParamKind::Report, "目标报表编码（本表或他表）"),
                p("版本", ParamKind::Version, "目标报表版本编码"),
                p("单元格", ParamKind::CellRef, "目标单元格 A1 引用，如 C5"),
                p_opt("组织机构", ParamKind::Org, Some("@current"), "缺省随当前组织"),
                p_opt("期间", ParamKind::Period, Some("0"), "缺省随当前期间"),
            ];
    proof {
        assert(params_shape(params@) =~= seq![("报表"@, ParamKind::Report, true, None::<Seq<char>>, "目标报表编码（本表或他表）"@), ("版本"@, ParamKind::Version, true, None::<Seq<char>>, "目标报表版本编码"@), ("单元格"@, ParamKind::CellRef, true, None::<Seq<char>>, "目标单元格 A1 引用，如 C5"@), ("组织机构"@, ParamKind::Org, false, Some("@current"@), "缺省随当前组织"@), ("期间"@, ParamKind::Period, false, Some("0"@), "缺省随当前期间"@)]);
    }
    RptFunction {
        name: "REF",
        category: FnCategory::Ref,
        ret_type: ValueType::Amount,
        is_fetch: true,
        prototype: Prototype { params, variadic: None },
        help: "表间取数（递归解析目标格，检测循环引用）",
        example: "REF('PROFIT','v1',B20)",
        wizard: WizardSpec { preview: true },
    }
}

/// The catalogue entry of the total of its arguments and ranges (`SUM`).
pub open spec fn is_sum(r: RptFunction) -> bool {
    &&& r.name@ == "SUM"@
    &&& r.category == FnCategory::Agg
    &&& r.ret_type == ValueType::Amount
    &&& r.is_fetch == false
    &&& params_shape(r.prototype.params@) .len() == 0
    &&& r.prototype.variadic matches Some(q) && param_shape(q) == ("加数"@, ParamKind::Expr, false, None::<Seq<char>>, "单元格/区间/数值/子表达式"@)
    &&& r.help@ == "求和（支持区间 SUM(D3:D7)）"@
    &&& r.example@ == "SUM(D3:D7)"@
    &&& r.wizard.preview == false
}

/// The total of its arguments and ranges (`SUM`).
pub fn sum() -> (r: RptFunction)
    ensures
        is_sum(r),
{
    let params: Vec<Param> = Vec::new();
    proof {
        assert(params_shape(params@) .len() == 0);
    }
    RptFunction {
        name: "SUM",
        category: FnCategory::Agg,
        ret_type: ValueType::Amount,
        is_fetch: false,
        prototype: Prototype { params, variadic: Some(Param { name: "加数", kind: ParamKind::Expr, required: false, default: None, hint: "单元格/区间/数值/子表达式" }) },
        help: "求和（支持区间 SUM(D3:D7)）",
        example: "SUM(D3:D7)",
        wizard: WizardSpec { preview: false },
    }
}

/// The catalogue entry of a conditional value (`IF`).
pub open spec fn is_if(r: RptFunction) -> bool {
    &&& r.name@ == "IF"@
    &&& r.category == FnCategory::Logic
    &&& r.ret_type == ValueType::Amount
    &&& r.is_fetch == false
    &&& params_shape(r.prototype.params@) == seq![("条件"@, ParamKind::Expr, true, None::<Seq<char>>, "布尔表达式"@), ("真值"@, ParamKind::Expr, true, None::<Seq<char>>, "条件成立时取值"@), ("假值"@, ParamKind::Expr, false, None::<Seq<char>>, "条件不成立时取值（缺省 null）"@)]
    &&& r.prototype.variadic is None
    &&& r.help@ == "条件取值"@
    &&& r.example@ == "IF(C5>0,C5,0)"@
    &&& r.wizard.preview == false
}

/// A conditional value (`IF`).
pub fn if_fn() -> (r: RptFunction)
    ensures
        is_if(r),
{
    let params: Vec<Param> = vec![
                p("条件", ParamKind::Expr, "布尔表达式"),
                p("真值", ParamKind::Expr, "条件成立时取值"),
                p_opt("假值", ParamKind::Expr, None, "条件不成立时取值（缺省 null）"),
            ];
    proof {
        assert(params_shape(params@) =~= seq![("条件"@, ParamKind::Expr, true, None::<Seq<char>>, "布尔表达式"@), ("真值"@, ParamKind::Expr, true, None::<Seq<char>>, "条件成立时取值"@), ("假值"@, ParamKind::Expr, false, None::<Seq<char>>, "条件不成立时取值（缺省 null）"@)]);
    }
    RptFunction {
        name: "IF",
        category: FnCategory::Logic,
        ret_type: ValueType::Amount,
        is_fetch: false,
        prototype: Prototype { params, variadic: None },
        help: "条件取值",
        example: "IF(C5>0,C5,0)",
        wizard: WizardSpec { preview: false },
    }
}

/// The catalogue entry of rounding (`ROUND`).
pub open spec fn is_round(r: RptFunction) -> bool {
    &&& r.name@ == "ROUND"@
    &&& r.category == FnCategory::Math
    &&& r.ret_type == ValueType::Amount
    &&& r.is_fetch == false
    &&& params_shape(r.prototype.params@) == seq![("数值"@, ParamKind::Expr, true, None::<Seq<char>>, "被四舍五入的值"@), ("位数"@, ParamKind::Number, false, Some("2"@), "保留小数位"@)]
    &&& r.prototype.variadic is None
    &&& r.help@ == "四舍五入"@
    &&& r.example@ == "ROUND(C5,2)"@
    &&& r.wizard.preview == false
}

/// Rounding (`ROUND`).
pub fn round() -> (r: RptFunction)
    ensures
        is_round(r),
{
    let params: Vec<Param> = vec![
                p("数值", ParamKind::Expr, "被四舍五入的值"),
                p_opt("位数", ParamKind::Number, Some("2"), "保留小数位"),
            ];
    proof {
        assert(params_shape(params@) =~= seq![("数值"@, ParamKind::Expr, true, None::<Seq<char>>, "被四舍五入的值"@), ("位数"@, ParamKind::Number, false, Some("2"@), "保留小数位"@)]);
    }
    RptFunction {
        name: "ROUND",
        category: FnCategory::Math,
        ret_type: ValueType::Amount,
        is_fetch: false,
        prototype: Prototype { params, variadic: None },
        help: "四舍五入",
        example: "ROUND(C5,2)",
        wizard: WizardSpec { preview: false },
    }
}

/// The catalogue entry of the absolute value (`ABS`).
pub open spec fn is_abs(r: RptFunction) -> bool {
    &&& r.name@ == "ABS"@
    &&& r.category == FnCategory::Math
    &&& r.ret_type == ValueType::Amount
    &&& r.is_fetch == false
    &&& params_shape(r.prototype.params@) == seq![("数值"@, ParamKind::Expr, true, None::<Seq<char>>, "取绝对值的值"@)]
    &&& r.prototype.variadic is None
    &&& r.help@ == "绝对值"@
    &&& r.example@ == "ABS(C5)"@
    &&& r.wizard.preview == false
}

/// The absolute value (`ABS`).
pub fn abs_fn() -> (r: RptFunction)
    ensures
        is_abs(r),
{
    let params: Vec<Param> = vec![
                p("数值", ParamKind::Expr, "取绝对值的值"),
            ];
    proof {
        assert(params_shape(params@) =~= seq![("数值"@, ParamKind::Expr, true, None::<Seq<char>>, "取绝对值的值"@)]);
    }
    RptFunction {
        name: "ABS",
        category: FnCategory::Math,
        ret_type: ValueType::Amount,
        is_fetch: false,
        prototype: Prototype { params, variadic: None },
        help: "绝对值",
        example: "ABS(C5)",
        wizard: WizardSpec { preview: false },
    }
}

/// The catalogue entry of the least of its arguments (`MIN`).
pub open spec fn is_min(r: RptFunction) -> bool {
    &&& r.name@ == "MIN"@
    &&& r.category == FnCategory::Math
    &&& r.ret_type == ValueType::Amount
    &&& r.is_fetch == false
    &&& params_shape(r.prototype.params@) .len() == 0
    &&& r.prototype.variadic matches Some(q) && param_shape(q) == ("值"@, ParamKind::Expr, false, None::<Seq<char>>, "单元格/区间/数值"@)
    &&& r.help@ == "最小值"@
    &&& r.example@ == "MIN(C5:C9)"@
    &&& r.wizard.preview == false
}

/// The least of its arguments (`MIN`).
pub fn min_fn() -> (r: RptFunction)
    ensures
        is_min(r),
{
    let params: Vec<Param> = Vec::new();
    proof {
        assert(params_shape(params@) .len() == 0);
    }
    RptFunction {
        name: "MIN",
        category: FnCategory::Math,
        ret_type: ValueType::Amount,
        is_fetch: false,
        prototype: Prototype { params, variadic: Some(Param { name: "值", kind: ParamKind::Expr, required: false, default: None, hint: "单元格/区间/数值" }) },
        help: "最小值",
        example: "MIN(C5:C9)",
        wizard: WizardSpec { preview: false },
    }
}

/// The catalogue entry of the greatest of its arguments (`MAX`).
pub open spec fn is_max(r: RptFunction) -> bool {
    &&& r.name@ == "MAX"@
    &&& r.category == FnCategory::Math
    &&& r.ret_type == ValueType::Amount
    &&& r.is_fetch == false
    &&& params_shape(r.prototype.params@) .len() == 0
    &&& r.prototype.variadic matches Some(q) && param_shape(q) == ("值"@, ParamKind::Expr, false, None::<Seq<char>>, "单元格/区间/数值"@)
    &&& r.help@ == "最大值"@
    &&& r.example@ == "MAX(C5:C9)"@
    &&& r.wizard.preview == false
}

/// The greatest of its arguments (`MAX`).
pub fn max_fn() -> (r: RptFunction)
    ensures
        is_max(r),
{
    let params: Vec<Param> = Vec::new();
    proof {
        assert(params_shape(params@) .len() == 0);
    }
    RptFunction {
        name: "MAX",
        category: FnCategory::Math,
        ret_type: ValueType::Amount,
        is_fetch: false,
        prototype: Prototype { params, variadic: Some(Param { name: "值", kind: ParamKind::Expr, required: false, default: None, hint: "单元格/区间/数值" }) },
        help: "最大值",
        example: "MAX(C5:C9)",
        wizard: WizardSpec { preview: false },
    }
}

/// The catalogue entry of `FLIST`, the records that drive a floating area's expansion; not evaluated in a cell.
pub open spec fn is_flist(r: RptFunction) -> bool {
    &&& r.name@ == "FLIST"@
    &&& r.category == FnCategory::Fetch
    &&& r.ret_type == ValueType::Text
    &&& r.is_fetch == false
    &&& params_shape(r.prototype.params@) == seq![("取数对象"@, ParamKind::Object, true, None::<Seq<char>>, "维度对象码，如 'ar_cust' 应收客户"@), ("组织机构"@, ParamKind::Org, false, Some("@current"@), "@current 当前组织，或组织码"@), ("期间"@, ParamKind::Period, false, Some("0"@), "0本期/-1上期，或绝对期间码"@), ("取前N"@, ParamKind::Number, false, Some("10"@), "按度量降序取前 N（0=全量）"@), ("排序度量"@, ParamKind::Text, false, Some("amt"@), "排序依据的度量字段，如 amt 余额"@)]
    &&& r.prototype.variadic is None
    &&& r.help@ == "罗列维度记录驱动浮动展开（前 N 大客户/供应商等）"@
    &&& r.example@ == "FLIST('ar_cust',@current,0,10,'amt')"@
    &&& r.wizard.preview == false
}

/// `FLIST`: the records that drive a floating area's expansion; not evaluated in a cell.
pub fn flist() -> (r: RptFunction)
    ensures
        is_flist(r),
{
    let params: Vec<Param> = vec![
                p("取数对象", ParamKind::Object, "维度对象码，如 'ar_cust' 应收客户"),
                p_opt("组织机构", ParamKind::Org, Some("@current"), "@current 当前组织，或组织码"),
                p_opt("期间", ParamKind::Period, Some("0"), "0本期/-1上期，或绝对期间码"),
                p_opt("取前N", ParamKind::Number, Some("10"), "按度量降序取前 N（0=全量）"),
                p_opt("排序度量", ParamKind::Text, Some("amt"), "排序依据的度量字段，如 amt 余额"),
            ];
    proof {
        assert(params_shape(params@) =~= seq![("取数对象"@, ParamKind::Object, true, None::<Seq<char>>, "维度对象码，如 'ar_cust' 应收客户"@), ("组织机构"@, ParamKind::Org, false, Some("@current"@), "@current 当前组织，或组织码"@), ("期间"@, ParamKind::Period, false, Some("0"@), "0本期/-1上期，或绝对期间码"@), ("取前N"@, ParamKind::Number, false, Some("10"@), "按度量降序取前 N（0=全量）"@), ("排序度量"@, ParamKind::Text, false, Some("amt"@), "排序依据的度量字段，如 amt 余额"@)]);
    }
    RptFunction {
        name: "FLIST",
        category: FnCategory::Fetch,
        ret_type: ValueType::Text,
        is_fetch: false,
        prototype: Prototype { params, variadic: None },
        help: "罗列维度记录驱动浮动展开（前 N 大客户/供应商等）",
        example: "FLIST('ar_cust',@current,0,10,'amt')",
        wizard: WizardSpec { preview: false },
    }
}

/// The catalogue entry of a consolidation node's consolidated amount of a group account (`CG`).
pub open spec fn is_cg(r: RptFunction) -> bool {
    &&& r.name@ == "CG"@
    &&& r.category == FnCategory::Fetch
    &&& r.ret_type == ValueType::Amount
    &&& r.is_fetch == true
    &&& params_shape(r.prototype.params@) == seq![("期间"@, ParamKind::Period, false, Some("0"@), "0本期,或绝对期间码"@), ("合并节点"@, ParamKind::Org, false, Some("@current"@), "@current 当前节点,或合并节点码"@), ("集团科目"@, ParamKind::Object, true, None::<Seq<char>>, "集团科目代码"@)]
    &&& r.prototype.variadic is None
    &&& r.help@ == "合并数(某合并节点某科目合并后金额)"@
    &&& r.example@ == "CG(0,@current,'1001')"@
    &&& r.wizard.preview == true
}

/// A consolidation node's consolidated amount of a group account (`CG`).
pub fn cg() -> (r: RptFunction)
    ensures
        is_cg(r),
{
    let params: Vec<Param> = vec![
                p_opt("期间", ParamKind::Period, Some("0"), "0本期,或绝对期间码"),
                p_opt("合并节点", ParamKind::Org, Some("@current"), "@current 当前节点,或合并节点码"),
                p("集团科目", ParamKind::Object, "集团科目代码"),
            ];
    proof {
        assert(params_shape(params@) =~= seq![("期间"@, ParamKind::Period, false, Some("0"@), "0本期,或绝对期间码"@), ("合并节点"@, ParamKind::Org, false, Some("@current"@), "@current 当前节点,或合并节点码"@), ("集团科目"@, ParamKind::Object, true, None::<Seq<char>>, "集团科目代码"@)]);
    }
    RptFunction {
        name: "CG",
        category: FnCategory::Fetch,
        ret_type: ValueType::Amount,
        is_fetch: true,
        prototype: Prototype { params, variadic: None },
        help: "合并数(某合并节点某科目合并后金额)",
        example: "CG(0,@current,'1001')",
        wizard: WizardSpec { preview: true },
    }
}

/// The catalogue entry of a node's aggregate of its members before eliminations (`IND`).
pub open spec fn is_ind(r: RptFunction) -> bool {
    &&& r.name@ == "IND"@
    &&& r.category == FnCategory::Fetch
    &&& r.ret_type == ValueType::Amount
    &&& r.is_fetch == true
    &&& params_shape(r.prototype.params@) == seq![("期间"@, ParamKind::Period, false, Some("0"@), "0本期,或绝对期间码"@), ("合并节点"@, ParamKind::Org, false, Some("@current"@), "@current 当前节点,或合并节点码"@), ("集团科目"@, ParamKind::Object, true, None::<Seq<char>>, "集团科目代码"@)]
    &&& r.prototype.variadic is None
    &&& r.help@ == "个别合计(下级并入,未抵销)"@
    &&& r.example@ == "IND(0,@current,'1001')"@
    &&& r.wizard.preview == false
}

/// A node's aggregate of its members before eliminations (`IND`).
pub fn ind() -> (r: RptFunction)
    ensures
        is_ind(r),
{
    let params: Vec<Param> = vec![
                p_opt("期间", ParamKind::Period, Some("0"), "0本期,或绝对期间码"),
                p_opt("合并节点", ParamKind::Org, Some("@current"), "@current 当前节点,或合并节点码"),
                p("集团科目", ParamKind::Object, "集团科目代码"),
            ];
    proof {
        assert(params_shape(params@) =~= seq![("期间"@, ParamKind::Period, false, Some("0"@), "0本期,或绝对期间码"@), ("合并节点"@, ParamKind::Org, false, Some("@current"@), "@current 当前节点,或合并节点码"@), ("集团科目"@, ParamKind::Object, true, None::<Seq<char>>, "集团科目代码"@)]);
    }
    RptFunction {
        name: "IND",
        category: FnCategory::Fetch,
        ret_type: ValueType::Amount,
        is_fetch: true,
        prototype: Prototype { params, variadic: None },
        help: "个别合计(下级并入,未抵销)",
        example: "IND(0,@current,'1001')",
        wizard: WizardSpec { preview: false },
    }
}

/// The catalogue entry of a node's elimination net of a group account (`ELIM`).
pub open spec fn is_elim(r: RptFunction) -> bool {
    &&& r.name@ == "ELIM"@
    &&& r.category == FnCategory::Fetch
    &&& r.ret_type == ValueType::Amount
    &&& r.is_fetch == true
    &&& params_shape(r.prototype.params@) == seq![("期间"@, ParamKind::Period, false, Some("0"@), "0本期,或绝对期间码"@), ("合并节点"@, ParamKind::Org, false, Some("@current"@), "@current 当前节点,或合并节点码"@), ("集团科目"@, ParamKind::Object, true, None::<Seq<char>>, "集团科目代码"@)]
    &&& r.prototype.variadic is None
    &&& r.help@ == "抵销额(该科目在该节点的抵销净额)"@
    &&& r.example@ == "ELIM(0,@current,'1122')"@
    &&& r.wizard.preview == false
}

/// A node's elimination net of a group account (`ELIM`).
pub fn elim() -> (r: RptFunction)
    ensures
        is_elim(r),
{
    let params: Vec<Param> = vec![
                p_opt("期间", ParamKind::Period, Some("0"), "0本期,或绝对期间码"),
                p_opt("合并节点", ParamKind::Org, Some("@current"), "@current 当前节点,或合并节点码"),
                p("集团科目", ParamKind::Object, "集团科目代码"),
            ];
    proof {
        assert(params_shape(params@) =~= seq![("期间"@, ParamKind::Period, false, Some("0"@), "0本期,或绝对期间码"@), ("合并节点"@, ParamKind::Org, false, Some("@current"@), "@current 当前节点,或合并节点码"@), ("集团科目"@, ParamKind::Object, true, None::<Seq<char>>, "集团科目代码"@)]);
    }
    RptFunction {
        name: "ELIM",
        category: FnCategory::Fetch,
        ret_type: ValueType::Amount,
        is_fetch: true,
        prototype: Prototype { params, variadic: None },
        help: "抵销额(该科目在该节点的抵销净额)",
        example: "ELIM(0,@current,'1122')",
        wizard: WizardSpec { preview: false },
    }
}

/// The names of a list of functions, in order.
pub open spec fn fn_names(fs: Seq<RptFunction>) -> Seq<Seq<char>> {
    fs.map_values(|f: RptFunction| f.name@)
}

/// Every function of the catalogue, in registration order, as its constructor gives it.
pub open spec fn catalogue_entries(fs: Seq<RptFunction>) -> bool {
    &&& fs.len() == 15
    &&& is_qm(fs[0])
    &&& is_qc(fs[1])
    &&& is_fs(fs[2])
    &&& is_je(fs[3])
    &&& is_ref(fs[4])
    &&& is_sum(fs[5])
    &&& is_if(fs[6])
    &&& is_round(fs[7])
    &&& is_abs(fs[8])
    &&& is_min(fs[9])
    &&& is_max(fs[10])
    &&& is_flist(fs[11])
    &&& is_cg(fs[12])
    &&& is_ind(fs[13])
    &&& is_elim(fs[14])
}

/// Every function of the catalogue, in registration order.
pub fn all_functions() -> (r: Vec<RptFunction>)
    ensures
        fn_names(r@) == seq!["QM"@, "QC"@, "FS"@, "JE"@, "REF"@, "SUM"@, "IF"@, "ROUND"@, "ABS"@, "MIN"@, "MAX"@, "FLIST"@, "CG"@, "IND"@, "ELIM"@],
        catalogue_entries(r@),
{
    let mut v: Vec<RptFunction> = Vec::new();
    v.push(qm());
    v.push(qc());
    v.push(fs());
    v.push(je());
    v.push(ref_fn());
    v.push(sum());
    v.push(if_fn());
    v.push(round());
    v.push(abs_fn());
    v.push(min_fn());
    v.push(max_fn());
    v.push(flist());
    v.push(cg());
    v.push(ind());
    v.push(elim());
    proof {
        assert(fn_names(v@) =~= seq!["QM"@, "QC"@, "FS"@, "JE"@, "REF"@, "SUM"@, "IF"@, "ROUND"@, "ABS"@, "MIN"@, "MAX"@, "FLIST"@, "CG"@, "IND"@, "ELIM"@]);
    }
    v
}


// ----------------------------------------------------------------------------
// The catalogue in display order
// ----------------------------------------------------------------------------
/// `a` is listed before `b`: by category text, then by name.
pub open spec fn fn_before(a: RptFunction, b: RptFunction) -> bool {
    seq_lt(category_text(a.category), category_text(b.category)) || (category_text(a.category) == category_text(
        b.category,
    ) && seq_lt(a.name@, b.name@))
}

/// Inserts a function after every function not listed after it.
pub open spec fn insert_fn(s: Seq<RptFunction>, f: RptFunction) -> Seq<RptFunction>
    decreases s.len(),
{
    if s.len() == 0 {
        seq![f]
    } else if fn_before(f, s.last()) {
        insert_fn(s.drop_last(), f).push(s.last())
    } else {
        s.push(f)
    }
}

/// The functions ordered by (category, name), keeping the order of equal keys.
pub open spec fn catalog_order(s: Seq<RptFunction>) -> Seq<RptFunction>
    decreases s.len(),
{
    if s.len() == 0 {
        Seq::empty()
    } else {
        insert_fn(catalog_order(s.drop_last()), s.last())
    }
}

/// No function is listed after one that comes before it.
pub open spec fn catalog_sorted(s: Seq<RptFunction>) -> bool {
    forall|i: int, j: int| 0 <= i < j < s.len() ==> !fn_before(#[trigger] s[j], #[trigger] s[i])
}

proof fn lemma_before_trans(a: RptFunction, b: RptFunction, c: RptFunction)
    requires
        fn_before(a, b),
        fn_before(b, c),
    ensures
        fn_before(a, c),
{
    let (ca, cb, cc) = (category_text(a.category), category_text(b.category), category_text(c.category));
    if seq_lt(ca, cb) && seq_lt(cb, cc) {
        lemma_seq_lt_trans(ca, cb, cc);
    } else if seq_lt(ca, cb) {
    } else if seq_lt(cb, cc) {
    } else {
        lemma_seq_lt_trans(a.name@, b.name@, c.name@);
    }
}

proof fn lemma_before_asym(a: RptFunction, b: RptFunction)
    requires
        fn_before(a, b),
    ensures
        !fn_before(b, a),
{
    let (ca, cb) = (category_text(a.category), category_text(b.category));
    if seq_lt(ca, cb) {
        lemma_seq_lt_asym(ca, cb);
        if ca == cb {
            lemma_seq_lt_irrefl(ca);
        }
    } else {
        lemma_seq_lt_asym(a.name@, b.name@);
        lemma_seq_lt_irrefl(ca);
    }
}

proof fn lemma_insert_fn(s: Seq<RptFunction>, f: RptFunction)
    requires
        catalog_sorted(s),
    ensures
        catalog_sorted(insert_fn(s, f)),
        insert_fn(s, f).len() == s.len() + 1,
        forall|x: RptFunction| #[trigger] insert_fn(s, f).contains(x) ==> x == f || s.contains(x),
    decreases s.len(),
{
    if s.len() > 0 {
        let t = s.drop_last();
        assert forall|i: int, j: int| 0 <= i < j < t.len() implies !fn_before(#[trigger] t[j], #[trigger] t[i]) by {
            assert(t[i] == s[i] && t[j] == s[j]);
        }
        if fn_before(f, s.last()) {
            lemma_insert_fn(t, f);
            let u = insert_fn(t, f);
            let r = u.push(s.last());
            assert forall|x: RptFunction| #[trigger] r.contains(x) implies x == f || s.contains(x) by {
                let k = choose|k: int| 0 <= k < r.len() && r[k] == x;
                if k < u.len() {
                    assert(u.contains(x));
                    if x != f {
                        let m = choose|m: int| 0 <= m < t.len() && t[m] == x;
                        assert(s[m] == x);
                    }
                } else {
                    assert(s[s.len() - 1] == x);
                }
            }
            assert forall|i: int, j: int| 0 <= i < j < r.len() implies !fn_before(#[trigger] r[j], #[trigger] r[i]) by {
                if j < u.len() {
                    assert(r[i] == u[i] && r[j] == u[j]);
                } else {
                    assert(r[j] == s.last());
                    assert(r[i] == u[i]);
                    assert(u.contains(u[i]));
                    if u[i] == f {
                        lemma_before_asym(f, s.last());
                    } else {
                        let m = choose|m: int| 0 <= m < t.len() && t[m] == u[i];
                        assert(s[m] == u[i]);
                    }
                }
            }
        } else {
            let r = s.push(f);
            assert forall|x: RptFunction| #[trigger] r.contains(x) implies x == f || s.contains(x) by {
                let k = choose|k: int| 0 <= k < r.len() && r[k] == x;
                if k < s.len() {
                    assert(s[k] == x);
                }
            }
            assert forall|i: int, j: int| 0 <= i < j < r.len() implies !fn_before(#[trigger] r[j], #[trigger] r[i]) by {
                if j < s.len() {
                    assert(r[i] == s[i] && r[j] == s[j]);
                } else {
                    assert(r[j] == f && r[i] == s[i]);
                    if i < s.len() - 1 && fn_before(f, s[i]) {
                        assert(!fn_before(s[s.len() - 1], s[i]));
                        lemma_seq_total_order(f, s[i], s[s.len() - 1]);
                    }
                }
            }
        }
    } else {
        let r = seq![f];
        assert forall|x: RptFunction| #[trigger] r.contains(x) implies x == f || s.contains(x) by {
            assert(r[0] == x);
        }
    }
}

/// If `f` comes before `a` but not before `b`, then `b` comes before `a`.
proof fn lemma_seq_total_order(f: RptFunction, a: RptFunction, b: RptFunction)
    requires
        fn_before(f, a),
        !fn_before(f, b),
    ensures
        fn_before(b, a),
{
    let (cf, ca, cb) = (category_text(f.category), category_text(a.category), category_text(b.category));
    crate::text::lemma_seq_lt_total(ca, cb);
    crate::text::lemma_seq_lt_total(f.name@, b.name@);
    crate::text::lemma_seq_lt_total(a.name@, b.name@);
    crate::text::lemma_seq_lt_total(cf, cb);
    if seq_lt(cf, ca) {
        if seq_lt(ca, cb) {
            lemma_seq_lt_trans(cf, ca, cb);
        } else if ca == cb {
        } else {
            lemma_seq_lt_asym(cb, ca);
        }
    } else {
        if seq_lt(ca, cb) {
            lemma_seq_lt_trans(cf, ca, cb);
        } else if ca == cb {
            crate::text::lemma_seq_lt_total(f.name@, a.name@);
            if seq_lt(a.name@, b.name@) {
                lemma_seq_lt_trans(f.name@, a.name@, b.name@);
            }
        } else {
        }
    }
}

pub proof fn lemma_catalog_sorted(s: Seq<RptFunction>)
    ensures
        catalog_sorted(catalog_order(s)),
        catalog_order(s).len() == s.len(),
    decreases s.len(),
{
    if s.len() > 0 {
        lemma_catalog_sorted(s.drop_last());
        lemma_insert_fn(catalog_order(s.drop_last()), s.last());
    }
}

fn fn_before_exec(a: &RptFunction, b: &RptFunction) -> (r: bool)
    ensures
        r == fn_before(*a, *b),
{
    let ca = a.category.as_str();
    let cb = b.category.as_str();
    str_lt(ca, cb) || (str_eq(ca, cb) && str_lt(a.name, b.name))
}

fn insert_fn_exec(v: &mut Vec<RptFunction>, f: RptFunction)
    ensures
        final(v)@ == insert_fn(old(v)@, f),
    decreases old(v)@.len(),
{
    let ghost s = v@;
    if v.len() == 0 {
        v.push(f);
        assert(v@ =~= seq![f]);
    } else {
        let last = v.pop().unwrap();
        assert(v@ =~= s.drop_last());
        if fn_before_exec(&f, &last) {
            insert_fn_exec(v, f);
            v.push(last);
        } else {
            v.push(last);
            assert(v@ =~= s);
            v.push(f);
        }
    }
}

fn sort_fns(v: Vec<RptFunction>) -> (r: Vec<RptFunction>)
    ensures
        r@ == catalog_order(v@),
    decreases v@.len(),
{
    let ghost s = v@;
    let mut v = v;
    match v.pop() {
        None => {
            assert(s.len() == 0);
            v
        },
        Some(last) => {
            assert(v@ =~= s.drop_last());
            let mut out = sort_fns(v);
            insert_fn_exec(&mut out, last);
            out
        },
    }
}

/// The catalogue in display order: by category, then by name.
pub fn catalog() -> (r: Vec<RptFunction>)
    ensures
        exists|base: Seq<RptFunction>| catalogue_entries(base) && r@ == catalog_order(base),
        catalog_sorted(r@),
        r@.len() == 15,
{
    let base = all_functions();
    let ghost b = base@;
    assert(fn_names(b).len() == 15);
    let r = sort_fns(base);
    proof {
        lemma_catalog_sorted(b);
    }
    r
}

} // verus!
