//! Serving the report pages: where a page's source lies under the page directory,
//! what kind of source it is, its revision, and how a page list is paged.
use vstd::prelude::*;
use crate::text::{split_spec, split_str, lower_seq, lower_string, copy_str, str_eq};

verus! {

/// Whether a relative path is safe: none of its `/`-separated segments is empty or
/// `..` (it stays inside the page directory).
pub open spec fn safe_rel_path(rel: Seq<char>) -> bool {
    forall|i: int|
        0 <= i < split_spec(rel, '/').len() ==> #[trigger] split_spec(rel, '/')[i] != ".."@ && split_spec(rel, '/')[i].len()
            > 0
}

/// The path segments of a page source below the page directory, or None when the
/// relative path would leave it (an empty or `..` segment).
pub fn source_abs(rel: &str) -> (r: Option<Vec<String>>)
    ensures
        safe_rel_path(rel@) ==> (r matches Some(v) && v@.map_values(|s: String| s@) == split_spec(rel@, '/')),
        !safe_rel_path(rel@) ==> r is None,
{
    let segs = split_str(rel, '/');
    let ghost sv = segs@.map_values(|s: String| s@);
    let mut i: usize = 0;
    while i < segs.len()
        invariant
            i <= segs@.len(),
            sv == segs@.map_values(|s: String| s@),
            sv == split_spec(rel@, '/'),
            forall|j: int| 0 <= j < i ==> #[trigger] sv[j] != ".."@ && sv[j].len() > 0,
        decreases segs@.len() - i,
    {
        if str_eq(segs[i].as_str(), "..") || segs[i].as_str().is_empty() {
            proof {
                assert(sv[i as int] == segs@[i as int]@);
            }
            return None;
        }
        i = i + 1;
    }
    Some(segs)
}

/// Whether a text ends with another.
pub open spec fn has_suffix(s: Seq<char>, p: Seq<char>) -> bool {
    p.len() <= s.len() && s.subrange(s.len() - p.len(), s.len() as int) == p
}

fn ends_with(s: &str, p: &str) -> (r: bool)
    ensures
        r == has_suffix(s@, p@),
{
    let a = crate::text::chars_of(s);
    let b = crate::text::chars_of(p);
    if b.len() > a.len() {
        return false;
    }
    let off = a.len() - b.len();
    let mut i: usize = 0;
    while i < b.len()
        invariant
            a@ == s@,
            b@ == p@,
            off == a@.len() - b@.len(),
            b@.len() <= a@.len(),
            off + b.len() == a.len(),
            i <= b@.len(),
            forall|j: int| 0 <= j < i ==> a@[off + j] == b@[j],
        decreases b@.len() - i,
    {
        if a[off + i] != b[i] {
            proof {
                assert(s@.subrange(s@.len() - p@.len(), s@.len() as int)[i as int] != p@[i as int]);
            }
            return false;
        }
        i = i + 1;
    }
    proof {
        assert(s@.subrange(s@.len() - p@.len(), s@.len() as int) =~= p@);
    }
    true
}

/// The kind of a page source from its file name, case aside: `js` for `.js` and
/// `.mjs`, `html` for `.html` and `.htm`, else empty. (Lower-casing only changes
/// ASCII letters in these suffixes, so ASCII lower-casing decides the same.)
pub open spec fn source_type_spec(rel: Seq<char>) -> Seq<char> {
    let l = lower_seq(rel);
    if has_suffix(l, ".js"@) || has_suffix(l, ".mjs"@) {
        "js"@
    } else if has_suffix(l, ".html"@) || has_suffix(l, ".htm"@) {
        "html"@
    } else {
        Seq::empty()
    }
}

/// The kind of a page source from its file name.
pub fn source_type_from_rel(rel: &str) -> (r: String)
    ensures
        r@ == source_type_spec(rel@),
{
    let l = lower_string(rel);
    if ends_with(l.as_str(), ".js") || ends_with(l.as_str(), ".mjs") {
        copy_str("js")
    } else if ends_with(l.as_str(), ".html") || ends_with(l.as_str(), ".htm") {
        copy_str("html")
    } else {
        String::new()
    }
}

/// The window of a page list: the page (1 at least, 1 by default), the page size
/// (1 at least, 50 by default), and the range of entries it shows.
pub open spec fn page_window_spec(total: nat, page: Option<u32>, page_size: Option<u32>) -> (nat, nat, nat, nat) {
    let p: nat = match page {
        Some(x) => if x >= 1 {
            x as nat
        } else {
            1
        },
        None => 1,
    };
    let s: nat = match page_size {
        Some(x) => if x >= 1 {
            x as nat
        } else {
            1
        },
        None => 50,
    };
    let start = ((p - 1) * s) as nat;
    let end: nat = if start >= total {
        total
    } else if start + s >= total {
        total
    } else {
        (start + s) as nat
    };
    (p, s, if start >= total {
        total
    } else {
        start
    }, end)
}

/// The window of a page list (see `page_window_spec`): (page, size, first entry,
/// entry after the last).
pub fn page_window(total: usize, page: Option<u32>, page_size: Option<u32>) -> (r: (u32, u32, usize, usize))
    ensures
        (r.0 as nat, r.1 as nat, r.2 as nat, r.3 as nat) == page_window_spec(total as nat, page, page_size),
{
    let p: u32 = match page {
        Some(x) => if x >= 1 {
            x
        } else {
            1
        },
        None => 1,
    };
    let s: u32 = match page_size {
        Some(x) => if x >= 1 {
            x
        } else {
            1
        },
        None => 50,
    };
    let pm: u64 = (p - 1) as u64;
    let sw: u64 = s as u64;
    proof {
        assert(pm * sw <= 0xffff_ffff * 0xffff_ffff) by (nonlinear_arith)
            requires
                pm <= 0xffff_ffff,
                sw <= 0xffff_ffff,
        ;
    }
    let start_wide: u64 = pm * sw;
    if start_wide >= total as u64 {
        return (p, s, total, total);
    }
    let start: usize = start_wide as usize;
    if start_wide + s as u64 >= total as u64 {
        (p, s, start, total)
    } else {
        (p, s, start, start + s as usize)
    }
}

} // verus!
