//! The functions that build maps. A `BTreeMap` has no layout to write to, so
//! the program carries functions that make and fill one for each value type;
//! they are found by name among its subprograms.
use crate::classify::Store;
use crate::die::{
    attr_value, die_name, Attr, Entry, Fault, Unit, AT_LOW_PC, TAG_SUBPROGRAM,
};
use crate::text::{chars_of, starts_with};
use vstd::prelude::*;
use vstd::string::*;

verus! {

/// The position of the first `<` from `k` on, or the length.
pub open spec fn open_angle(s: Seq<char>, k: nat) -> nat
    decreases s.len() - k,
{
    if k >= s.len() {
        s.len()
    } else if s[k as int] == '<' {
        k
    } else {
        open_angle(s, k + 1)
    }
}

/// Where the last segment of a path of `n` characters starts: after its last
/// `::`.
pub open spec fn leaf_start(s: Seq<char>, n: nat) -> nat
    decreases n,
{
    if n < 2 || n > s.len() {
        0
    } else if s[n - 2] == ':' && s[n - 1] == ':' {
        n
    } else {
        leaf_start(s, (n - 1) as nat)
    }
}

/// A type's name without the path before it: what stands before the first `<`
/// loses all but its last segment.
pub open spec fn short_name(s: Seq<char>) -> Seq<char> {
    s.skip(leaf_start(s, open_angle(s, 0)) as int)
}

proof fn lemma_open_angle(s: Seq<char>, k: nat)
    requires
        k <= s.len(),
    ensures
        k <= open_angle(s, k) <= s.len(),
        forall|j: int| k <= j < open_angle(s, k) ==> s[j] != '<',
        open_angle(s, k) < s.len() ==> s[open_angle(s, k) as int] == '<',
    decreases s.len() - k,
{
    if k < s.len() && s[k as int] != '<' {
        lemma_open_angle(s, k + 1);
    }
}

/// Whether a path separator ends before a position.
pub open spec fn separates(s: Seq<char>, k: int) -> bool {
    2 <= k <= s.len() && s[k - 2] == ':' && s[k - 1] == ':'
}

proof fn lemma_leaf_start(s: Seq<char>, n: nat)
    requires
        n <= s.len(),
    ensures
        leaf_start(s, n) <= n,
        leaf_start(s, n) == 0 || separates(s, leaf_start(s, n) as int),
        forall|k: int| leaf_start(s, n) < k <= n ==> !(#[trigger] separates(s, k)),
    decreases n,
{
    if n >= 2 && !(s[n - 2] == ':' && s[n - 1] == ':') {
        lemma_leaf_start(s, (n - 1) as nat);
    }
}

/// A type's name without its path is what follows the last `::` that stands before its
/// first `<`; the whole name where there is none.
pub proof fn law_short_name_follows_the_path(s: Seq<char>) -> (r: (int, int))
    ensures
        0 <= r.0 <= r.1 <= s.len(),
        short_name(s) == s.skip(r.0),
        r.0 == 0 || separates(s, r.0),
        forall|k: int| r.0 < k <= r.1 ==> !(#[trigger] separates(s, k)),
        forall|j: int| 0 <= j < r.1 ==> #[trigger] s[j] != '<',
        r.1 < s.len() ==> s[r.1] == '<',
{
    lemma_open_angle(s, 0);
    lemma_leaf_start(s, open_angle(s, 0));
    (leaf_start(s, open_angle(s, 0)) as int, open_angle(s, 0) as int)
}

fn find_angle(s: &Vec<char>) -> (r: usize)
    ensures
        r == open_angle(s@, 0),
        r <= s@.len(),
{
    let mut k: usize = 0;
    while k < s.len() && s[k] != '<'
        invariant
            k <= s@.len(),
            open_angle(s@, 0) == open_angle(s@, k as nat),
        decreases s@.len() - k,
    {
        k = k + 1;
    }
    k
}

fn sub_chars(s: &Vec<char>, from: usize, to: usize) -> (r: Vec<char>)
    requires
        from <= to <= s@.len(),
    ensures
        r@ == s@.subrange(from as int, to as int),
{
    let mut out: Vec<char> = Vec::new();
    let mut k: usize = from;
    while k < to
        invariant
            from <= k <= to <= s@.len(),
            out@ == s@.subrange(from as int, k as int),
        decreases to - k,
    {
        out.push(s[k]);
        assert(out@ =~= s@.subrange(from as int, k + 1));
        k = k + 1;
    }
    out
}

/// A type's name without the path before it, so that `alloc::string::String`
/// and `String` agree.
pub fn norm_ty(s: &Vec<char>) -> (r: Vec<char>)
    ensures
        r@ == short_name(s@),
{
    let angle: usize = find_angle(s);
    let mut n: usize = angle;
    while n >= 2 && !(s[n - 2] == ':' && s[n - 1] == ':')
        invariant
            n <= angle <= s@.len(),
            leaf_start(s@, angle as nat) == leaf_start(s@, n as nat),
        decreases n,
    {
        n = n - 1;
    }
    let from: usize = if n < 2 {
        0
    } else {
        n
    };
    let r: Vec<char> = sub_chars(s, from, s.len());
    assert(r@ =~= short_name(s@));
    r
}

pub fn same_chars(a: &Vec<char>, b: &Vec<char>) -> (r: bool)
    ensures
        r == (a@ == b@),
{
    if a.len() != b.len() {
        return false;
    }
    let mut k: usize = 0;
    while k < a.len()
        invariant
            k <= a@.len(),
            a@.len() == b@.len(),
            forall|j: int| 0 <= j < k ==> a@[j] == b@[j],
        decreases a@.len() - k,
    {
        if a[k] != b[k] {
            return false;
        }
        k = k + 1;
    }
    assert(a@ =~= b@);
    true
}

/// Whether a subprogram of that name is one for a value type: its name begins
/// with `prefix` and, with `match_v`, holds that type between angle brackets.
/// A name that ends at its bracket cannot be told.
pub open spec fn is_trampoline(
    name: Seq<char>,
    prefix: Seq<char>,
    v_name: Seq<char>,
    match_v: bool,
) -> Result<bool, Fault> {
    if !crate::text::begins(name, prefix) {
        Ok(false)
    } else if !match_v {
        Ok(true)
    } else {
        let lt = open_angle(name, 0);
        if lt >= name.len() {
            Ok(false)
        } else if lt + 1 > name.len() - 1 {
            Err(Fault::Trampoline)
        } else {
            Ok(short_name(name.subrange(lt as int + 1, name.len() - 1)) == short_name(v_name))
        }
    }
}

/// The link-time address where an entry's code starts.
pub open spec fn low_pc(e: Entry) -> Option<u64> {
    match crate::die::attr_of(e, AT_LOW_PC) {
        Some(Attr::Addr(lo)) => Some(lo),
        _ => None,
    }
}

/// The run-time address of the function, among a unit's entries from the `k`th
/// on.
pub open spec fn tramp_in(
    unit: Unit,
    slide: u64,
    prefix: Seq<char>,
    v_name: Seq<char>,
    match_v: bool,
    k: nat,
) -> Result<Option<u64>, Fault>
    decreases unit.dies().len() - k,
{
    if k >= unit.dies().len() {
        Ok(None)
    } else {
        let e = unit.dies()[k as int];
        let rest = tramp_in(unit, slide, prefix, v_name, match_v, k + 1);
        if e.tag != TAG_SUBPROGRAM {
            rest
        } else {
            match is_trampoline(crate::classify::label(unit, e.offset), prefix, v_name, match_v) {
                Err(f) => Err(f),
                Ok(false) => rest,
                Ok(true) => match low_pc(e) {
                    None => rest,
                    Some(lo) => if lo + slide > u64::MAX {
                        Err(Fault::Size)
                    } else {
                        Ok(Some((lo + slide) as u64))
                    },
                },
            }
        }
    }
}

/// The run-time address of the function, among the units from the `ui`th on.
pub open spec fn tramp_from(
    units: Seq<Unit>,
    slide: u64,
    prefix: Seq<char>,
    v_name: Seq<char>,
    match_v: bool,
    ui: nat,
) -> Result<Option<u64>, Fault>
    decreases units.len() - ui,
{
    if ui >= units.len() {
        Ok(None)
    } else {
        match tramp_in(units[ui as int], slide, prefix, v_name, match_v, 0) {
            Err(f) => Err(f),
            Ok(Some(a)) => Ok(Some(a)),
            Ok(None) => tramp_from(units, slide, prefix, v_name, match_v, ui + 1),
        }
    }
}

fn trampoline_for(name: &str, prefix: &str, v_name: &str, match_v: bool) -> (r: Result<
    bool,
    Fault,
>)
    ensures
        r == is_trampoline(name@, prefix@, v_name@, match_v),
{
    if !starts_with(name, prefix) {
        return Ok(false);
    }
    if !match_v {
        return Ok(true);
    }
    let chars: Vec<char> = chars_of(name);
    let lt: usize = find_angle(&chars);
    if lt >= chars.len() {
        return Ok(false);
    }
    if lt + 1 > chars.len() - 1 {
        return Err(Fault::Trampoline);
    }
    let inner: Vec<char> = sub_chars(&chars, lt + 1, chars.len() - 1);
    let want: Vec<char> = chars_of(v_name);
    Ok(same_chars(&norm_ty(&inner), &norm_ty(&want)))
}

/// Finds the run-time address of the function of that name for a value type.
/// Where one function serves all value types, any instance will do.
pub fn resolve_tramp(store: &Store, prefix: &str, v_name: &str, match_v: bool) -> (r: Result<
    Option<u64>,
    Fault,
>)
    ensures
        r == tramp_from(store.all(), store.slid(), prefix@, v_name@, match_v, 0),
{
    let units: &Vec<Unit> = store.units();
    let slide: u64 = store.slide();
    let mut ui: usize = 0;
    while ui < units.len()
        invariant
            ui <= units@.len(),
            units@ == store.all(),
            slide == store.slid(),
            tramp_from(store.all(), slide, prefix@, v_name@, match_v, 0) == tramp_from(
                store.all(),
                slide,
                prefix@,
                v_name@,
                match_v,
                ui as nat,
            ),
        decreases units@.len() - ui,
    {
        let unit: &Unit = &units[ui];
        let es: &Vec<Entry> = unit.entries();
        let mut k: usize = 0;
        while k < es.len()
            invariant
                ui < units@.len(),
                units@ == store.all(),
                slide == store.slid(),
                *unit == units@[ui as int],
                es@ == unit.dies(),
                k <= es@.len(),
                tramp_from(store.all(), slide, prefix@, v_name@, match_v, 0) == tramp_from(
                    store.all(),
                    slide,
                    prefix@,
                    v_name@,
                    match_v,
                    ui as nat,
                ),
                tramp_in(*unit, slide, prefix@, v_name@, match_v, 0) == tramp_in(
                    *unit,
                    slide,
                    prefix@,
                    v_name@,
                    match_v,
                    k as nat,
                ),
            decreases es@.len() - k,
        {
            let e: &Entry = &es[k];
            if e.tag == TAG_SUBPROGRAM {
                let name: String = match die_name(unit, e.offset) {
                    Some(s) => s.clone(),
                    None => String::new(),
                };
                match trampoline_for(name.as_str(), prefix, v_name, match_v) {
                    Err(f) => {
                        return Err(f);
                    },
                    Ok(false) => {},
                    Ok(true) => {
                        if let Some(Attr::Addr(lo)) = attr_value(e, AT_LOW_PC) {
                            return match lo.checked_add(slide) {
                                Some(a) => Ok(Some(a)),
                                None => Err(Fault::Size),
                            };
                        }
                    },
                }
            }
            k = k + 1;
        }
        ui = ui + 1;
    }
    Ok(None)
}

} // verus!
