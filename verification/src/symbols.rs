//! Discovery and validation of the dynamic symbols that the engine needs.

use vstd::prelude::*;
use crate::elf::{name_is, DynSymbol, ElfImage, Section, SectionData};
use crate::error::{names_of, same_result, Error};

verus! {

/// Number of dynamic symbols that every image must define.
pub const REQUIRED_SYMBOLS: usize = 6;

/// Size that each required symbol but the entry point must have.
pub const SPLICED_SYMBOL_SIZE: u64 = 8;

/// Address and size of one dynamic symbol.
#[derive(Debug, Clone, Copy, PartialEq, Eq)]
pub struct SymbolInfo {
    pub value: u64,
    pub size: u64,
}

/// The required dynamic symbols of an image.
#[derive(Debug, Clone, Copy, PartialEq, Eq)]
pub struct Symbols {
    pub sgx_entry: SymbolInfo,
    pub heap_base: SymbolInfo,
    pub heap_size: SymbolInfo,
    pub rela: SymbolInfo,
    pub relacount: SymbolInfo,
    pub enclave_size: SymbolInfo,
}

impl Symbols {
    /// The `k`-th required symbol, in the order of `required_name`.
    pub open spec fn get(&self, k: int) -> SymbolInfo {
        if k == 0 {
            self.sgx_entry
        } else if k == 1 {
            self.heap_base
        } else if k == 2 {
            self.heap_size
        } else if k == 3 {
            self.rela
        } else if k == 4 {
            self.relacount
        } else {
            self.enclave_size
        }
    }

    /// The `k`-th required symbol, in the order of `required_name`.
    pub fn info(&self, k: usize) -> (r: SymbolInfo)
        ensures
            r == self.get(k as int),
    {
        if k == 0 {
            self.sgx_entry
        } else if k == 1 {
            self.heap_base
        } else if k == 2 {
            self.heap_size
        } else if k == 3 {
            self.rela
        } else if k == 4 {
            self.relacount
        } else {
            self.enclave_size
        }
    }
}

/// Name of the `k`-th required symbol.
pub open spec fn required_name(k: int) -> Seq<char> {
    if k == 0 {
        "sgx_entry"@
    } else if k == 1 {
        "HEAP_BASE"@
    } else if k == 2 {
        "HEAP_SIZE"@
    } else if k == 3 {
        "RELA"@
    } else if k == 4 {
        "RELACOUNT"@
    } else {
        "ENCLAVE_SIZE"@
    }
}

/// The six required names differ from each other.
pub proof fn lemma_required_names_distinct()
    ensures
        forall|a: int, b: int|
            0 <= a < 6 && 0 <= b < 6 && a != b ==> #[trigger] required_name(a)
                != #[trigger] required_name(b),
{
    reveal_strlit("sgx_entry");
    reveal_strlit("HEAP_BASE");
    reveal_strlit("HEAP_SIZE");
    reveal_strlit("RELA");
    reveal_strlit("RELACOUNT");
    reveal_strlit("ENCLAVE_SIZE");
    assert("sgx_entry"@.len() == 9 && "sgx_entry"@[0] == 's');
    assert("HEAP_BASE"@.len() == 9 && "HEAP_BASE"@[0] == 'H' && "HEAP_BASE"@[5] == 'B');
    assert("HEAP_SIZE"@.len() == 9 && "HEAP_SIZE"@[0] == 'H' && "HEAP_SIZE"@[5] == 'S');
    assert("RELA"@.len() == 4);
    assert("RELACOUNT"@.len() == 9 && "RELACOUNT"@[0] == 'R');
    assert("ENCLAVE_SIZE"@.len() == 12);
    assert forall|a: int, b: int| 0 <= a < 6 && 0 <= b < 6 && a != b implies #[trigger]
        required_name(a) != #[trigger] required_name(b) by {
        let x = required_name(a);
        let y = required_name(b);
        if x.len() == y.len() {
            assert(x[0] != y[0] || x[5] != y[5]);
        }
    }
}

/// Name of the `k`-th required symbol.
pub fn required_symbol(k: usize) -> (r: &'static str)
    requires
        k < REQUIRED_SYMBOLS,
    ensures
        r@ == required_name(k as int),
{
    if k == 0 {
        "sgx_entry"
    } else if k == 1 {
        "HEAP_BASE"
    } else if k == 2 {
        "HEAP_SIZE"
    } else if k == 3 {
        "RELA"
    } else if k == 4 {
        "RELACOUNT"
    } else {
        "ENCLAVE_SIZE"
    }
}

/// Which required symbol a name denotes, if any.
pub fn required_index(name: &String) -> (r: Option<usize>)
    ensures
        match r {
            Some(k) => k < REQUIRED_SYMBOLS && name@ == required_name(k as int),
            None => forall|k: int| 0 <= k < 6 ==> name@ != #[trigger] required_name(k),
        },
{
    let mut k: usize = 0;
    while k < REQUIRED_SYMBOLS
        invariant
            k <= REQUIRED_SYMBOLS,
            forall|m: int| 0 <= m < k ==> name@ != #[trigger] required_name(m),
        decreases REQUIRED_SYMBOLS - k,
    {
        if name_is(name, required_symbol(k)) {
            return Some(k);
        }
        k += 1;
    }
    None
}

/// The section carries the given name.
pub open spec fn section_named(section: Section, name: Seq<char>) -> bool {
    section.name matches Some(n) && n@ == name
}

/// Section `i` is the first one that carries the given name.
pub open spec fn first_section_named(sections: Seq<Section>, name: Seq<char>, i: int) -> bool {
    &&& 0 <= i < sections.len()
    &&& section_named(sections[i], name)
    &&& forall|j: int| 0 <= j < i ==> !section_named(#[trigger] sections[j], name)
}

/// Some section carries the given name.
pub open spec fn has_section_named(sections: Seq<Section>, name: Seq<char>) -> bool {
    exists|i: int| 0 <= i < sections.len() && section_named(#[trigger] sections[i], name)
}

/// Index of the first section that carries the given name.
pub fn find_section_by_name(elf: &ElfImage, name: &str) -> (r: Option<usize>)
    ensures
        match r {
            Some(i) => first_section_named(elf.sections@, name@, i as int),
            None => !has_section_named(elf.sections@, name@),
        },
{
    let mut i: usize = 0;
    while i < elf.sections.len()
        invariant
            i <= elf.sections.len(),
            forall|j: int| 0 <= j < i ==> !section_named(#[trigger] elf.sections@[j], name@),
        decreases elf.sections.len() - i,
    {
        let hit = match &elf.sections[i].name {
            Some(n) => name_is(n, name),
            None => false,
        };
        if hit {
            return Some(i);
        }
        i += 1;
    }
    None
}

/// Entry `j`, which is not the reserved first one, carries the `k`-th
/// required name.
pub open spec fn named_at(syms: Seq<DynSymbol>, k: int, j: int) -> bool {
    1 <= j < syms.len() && syms[j].name@ == required_name(k)
}

/// An entry before `i` carries the `k`-th required name.
pub open spec fn seen_before(syms: Seq<DynSymbol>, k: int, i: int) -> bool {
    exists|j: int| j < i && #[trigger] named_at(syms, k, j)
}

/// Entry `i` is undefined.
pub open spec fn undefined_at(syms: Seq<DynSymbol>, i: int) -> bool {
    syms[i].is_undefined()
}

/// Entry `i` is defined and repeats a required name that stands before it.
pub open spec fn duplicate_at(syms: Seq<DynSymbol>, i: int) -> bool {
    &&& !undefined_at(syms, i)
    &&& exists|k: int| 0 <= k < 6 && #[trigger] named_at(syms, k, i) && seen_before(syms, k, i)
}

/// Entry `i` is refused: it is undefined, or it repeats a required name.
pub open spec fn offends(syms: Seq<DynSymbol>, i: int) -> bool {
    undefined_at(syms, i) || duplicate_at(syms, i)
}

/// Entry `i` is the first refused one after the reserved first entry.
pub open spec fn first_offender(syms: Seq<DynSymbol>, i: int) -> bool {
    &&& 1 <= i < syms.len()
    &&& offends(syms, i)
    &&& forall|j: int| 1 <= j < i ==> !#[trigger] offends(syms, j)
}

/// No entry after the reserved first one is refused.
pub open spec fn no_offender(syms: Seq<DynSymbol>) -> bool {
    forall|j: int| 1 <= j < syms.len() ==> !#[trigger] offends(syms, j)
}

/// The `k`-th required name occurs in the table.
pub open spec fn present(syms: Seq<DynSymbol>, k: int) -> bool {
    seen_before(syms, k, syms.len() as int)
}

/// The required names from the `k`-th on that do not occur, in order.
pub open spec fn missing_names(syms: Seq<DynSymbol>, k: int) -> Seq<Seq<char>>
    decreases 6 - k,
{
    if k >= 6 {
        Seq::empty()
    } else if present(syms, k) {
        missing_names(syms, k + 1)
    } else {
        seq![required_name(k)] + missing_names(syms, k + 1)
    }
}

/// `s` holds, for each required name, address and size of the entry that
/// carries it.
pub open spec fn symbols_match(syms: Seq<DynSymbol>, s: Symbols) -> bool {
    forall|k: int, j: int|
        0 <= k < 6 && #[trigger] named_at(syms, k, j) ==> s.get(k) == info_at(syms, j)
}

/// The `k`-th required symbol is one of those that must be eight bytes long,
/// and `s` has another size for it.
pub open spec fn wrong_size(s: Symbols, k: int) -> bool {
    1 <= k < 6 && s.get(k).size != 8
}

/// What the walk over a dynamic symbol table yields.
///
/// The first refused entry decides: an undefined one gives
/// `DynamicSymbolUndefined`, a repeated required name
/// `DynamicSymbolDuplicate`. Without a refused entry, required names that do
/// not occur give `DynamicSymbolMissing` with all of them in order; then the
/// first required symbol of a wrong size gives `DynamicSymbolIncorrectSize`;
/// otherwise the walk yields the six symbols.
pub open spec fn scan_outcome(syms: Seq<DynSymbol>, r: Result<Symbols, Error>) -> bool {
    match r {
        Ok(s) => {
            &&& no_offender(syms)
            &&& missing_names(syms, 0).len() == 0
            &&& symbols_match(syms, s)
            &&& forall|k: int| !#[trigger] wrong_size(s, k)
        },
        Err(Error::DynamicSymbolUndefined(n)) => exists|i: int|
            #[trigger] first_offender(syms, i) && undefined_at(syms, i) && n@ == syms[i].name@,
        Err(Error::DynamicSymbolDuplicate(n)) => exists|i: int|
            #[trigger] first_offender(syms, i) && duplicate_at(syms, i) && n@ == syms[i].name@,
        Err(Error::DynamicSymbolMissing(v)) => {
            &&& no_offender(syms)
            &&& v@.len() > 0
            &&& names_of(v@) == missing_names(syms, 0)
        },
        Err(Error::DynamicSymbolIncorrectSize { name, expected, actual }) => {
            &&& no_offender(syms)
            &&& missing_names(syms, 0).len() == 0
            &&& exists|s: Symbols, k: int|
                {
                    &&& symbols_match(syms, s)
                    &&& #[trigger] wrong_size(s, k)
                    &&& forall|m: int| m < k ==> !#[trigger] wrong_size(s, m)
                    &&& name@ == required_name(k)
                    &&& expected == 8
                    &&& actual == s.get(k).size
                }
        },
        _ => false,
    }
}

/// What the search for the required symbols of an image yields.
///
/// Without a section named `.dynsym` it is `DynamicSymbolTableNotFound`;
/// where the first such section holds no 64-bit dynamic symbol table it is
/// `DynamicSymbolTableNotInDynsymSection`; otherwise the walk over that table
/// decides.
pub open spec fn symbols_outcome(elf: &ElfImage, r: Result<Symbols, Error>) -> bool {
    match r {
        Err(Error::DynamicSymbolTableNotFound) => !has_section_named(elf.sections@, ".dynsym"@),
        Err(Error::DynamicSymbolTableNotInDynsymSection) => exists|i: int|
            #[trigger] first_section_named(elf.sections@, ".dynsym"@, i)
                && !(elf.sections@[i].data is DynSymbolTable64),
        _ => exists|i: int|
            #[trigger] first_section_named(elf.sections@, ".dynsym"@, i) && (
            elf.sections@[i].data matches SectionData::DynSymbolTable64(v) && scan_outcome(v@, r)),
    }
}

/// Address and size of entry `j`.
pub open spec fn info_at(syms: Seq<DynSymbol>, j: int) -> SymbolInfo {
    SymbolInfo { value: syms[j].value, size: syms[j].size }
}

/// Walks a dynamic symbol table, the reserved first entry left out, and
/// collects the required symbols.
pub fn scan_symbols(syms: &Vec<DynSymbol>) -> (r: Result<Symbols, Error>)
    ensures
        scan_outcome(syms@, r),
{
    let mut found: Vec<Option<SymbolInfo>> = Vec::new();
    let mut n: usize = 0;
    while n < REQUIRED_SYMBOLS
        invariant
            n <= REQUIRED_SYMBOLS,
            found@.len() == n,
            forall|m: int| 0 <= m < n ==> #[trigger] found@[m] is None,
        decreases REQUIRED_SYMBOLS - n,
    {
        found.push(None);
        n += 1;
    }
    let mut i: usize = 1;
    while i < syms.len()
        invariant
            1 <= i,
            found@.len() == 6,
            forall|j: int| 1 <= j < i && j < syms@.len() ==> !#[trigger] offends(syms@, j),
            forall|k: int|
                0 <= k < 6 ==> (#[trigger] found@[k] is None <==> !seen_before(
                    syms@,
                    k,
                    i as int,
                )),
            forall|k: int, j: int|
                0 <= k < 6 && j < i && #[trigger] named_at(syms@, k, j) ==> found@[k] == Some(
                    info_at(syms@, j),
                ),
        decreases syms.len() - i,
    {
        let sym = &syms[i];
        if sym.undefined() {
            proof {
                assert(first_offender(syms@, i as int));
            }
            return Err(Error::DynamicSymbolUndefined(sym.name.clone()));
        }
        match required_index(&sym.name) {
            Some(k) => {
                if found[k].is_some() {
                    proof {
                        assert(named_at(syms@, k as int, i as int));
                        assert(seen_before(syms@, k as int, i as int));
                        assert(duplicate_at(syms@, i as int));
                        assert(first_offender(syms@, i as int));
                    }
                    return Err(Error::DynamicSymbolDuplicate(required_symbol(k)));
                }
                let ghost before = found@;
                found.set(k, Some(SymbolInfo { value: sym.value, size: sym.size }));
                proof {
                    lemma_required_names_distinct();
                    assert(named_at(syms@, k as int, i as int));
                    assert(!seen_before(syms@, k as int, i as int));
                    assert forall|m: int| 0 <= m < 6 && m != k implies !named_at(
                        syms@,
                        m,
                        i as int,
                    ) by {
                        assert(required_name(m) != required_name(k as int));
                    }
                    assert(!duplicate_at(syms@, i as int));
                    assert forall|m: int| 0 <= m < 6 implies (#[trigger] found@[m] is None
                        <==> !seen_before(syms@, m, i + 1)) by {
                        if m == k {
                            assert(named_at(syms@, m, i as int));
                        } else {
                            assert(found@[m] == before[m]);
                            if seen_before(syms@, m, i + 1) {
                                let j = choose|j: int| j < i + 1 && named_at(syms@, m, j);
                                assert(j < i);
                                assert(named_at(syms@, m, j));
                            }
                            if seen_before(syms@, m, i as int) {
                                let j = choose|j: int| j < i && named_at(syms@, m, j);
                                assert(j < i + 1 && named_at(syms@, m, j));
                            }
                        }
                    }
                    assert forall|m: int, j: int|
                        0 <= m < 6 && j < i + 1 && #[trigger] named_at(
                            syms@,
                            m,
                            j,
                        ) implies found@[m] == Some(info_at(syms@, j)) by {
                        if j == i {
                            assert(m == k);
                        } else if m == k {
                            assert(seen_before(syms@, m, i as int));
                        } else {
                            assert(found@[m] == before[m]);
                        }
                    }
                }
            },
            None => {
                proof {
                    assert forall|m: int| 0 <= m < 6 implies !named_at(syms@, m, i as int) by {
                        assert(sym.name@ != required_name(m));
                    }
                    assert(!duplicate_at(syms@, i as int));
                    assert forall|m: int| 0 <= m < 6 implies (#[trigger] found@[m] is None
                        <==> !seen_before(syms@, m, i + 1)) by {
                        if seen_before(syms@, m, i + 1) {
                            let j = choose|j: int| j < i + 1 && named_at(syms@, m, j);
                            assert(j < i);
                            assert(named_at(syms@, m, j));
                        }
                        if seen_before(syms@, m, i as int) {
                            let j = choose|j: int| j < i && named_at(syms@, m, j);
                            assert(j < i + 1 && named_at(syms@, m, j));
                        }
                    }
                }
            },
        }
        i += 1;
    }
    proof {
        assert(no_offender(syms@));
        assert forall|k: int| 0 <= k < 6 implies (#[trigger] found@[k] is None <==> !present(
            syms@,
            k,
        )) by {
            if present(syms@, k) {
                let j = choose|j: int| j < syms@.len() && named_at(syms@, k, j);
                assert(j < i && named_at(syms@, k, j));
            }
            if seen_before(syms@, k, i as int) {
                let j = choose|j: int| j < i && named_at(syms@, k, j);
                assert(j < syms@.len() && named_at(syms@, k, j));
            }
        }
    }
    let mut missing: Vec<&'static str> = Vec::new();
    let mut k: usize = 0;
    while k < REQUIRED_SYMBOLS
        invariant
            k <= REQUIRED_SYMBOLS,
            found@.len() == 6,
            forall|m: int| 0 <= m < 6 ==> (#[trigger] found@[m] is None <==> !present(syms@, m)),
            names_of(missing@) + missing_names(syms@, k as int) == missing_names(syms@, 0),
        decreases REQUIRED_SYMBOLS - k,
    {
        let ghost before = missing@;
        if found[k].is_none() {
            missing.push(required_symbol(k));
            proof {
                assert(names_of(missing@) =~= names_of(before) + seq![required_name(k as int)]);
                assert(names_of(missing@) + missing_names(syms@, k + 1) =~= names_of(before) + (
                seq![required_name(k as int)] + missing_names(syms@, k + 1)));
            }
        }
        k += 1;
    }
    proof {
        assert(names_of(missing@) =~= missing_names(syms@, 0));
    }
    if missing.len() > 0 {
        return Err(Error::DynamicSymbolMissing(missing));
    }
    proof {
        lemma_missing_none(syms@, 0);
    }
    let s = Symbols {
        sgx_entry: found[0].unwrap(),
        heap_base: found[1].unwrap(),
        heap_size: found[2].unwrap(),
        rela: found[3].unwrap(),
        relacount: found[4].unwrap(),
        enclave_size: found[5].unwrap(),
    };
    proof {
        assert forall|m: int, j: int| 0 <= m < 6 && #[trigger] named_at(syms@, m, j) implies s.get(
            m,
        ) == info_at(syms@, j) by {
            assert(j < i);
            assert(found@[m] == Some(info_at(syms@, j)));
        }
        assert(symbols_match(syms@, s));
    }
    let mut k: usize = 1;
    while k < REQUIRED_SYMBOLS
        invariant
            1 <= k <= REQUIRED_SYMBOLS,
            no_offender(syms@),
            missing_names(syms@, 0).len() == 0,
            symbols_match(syms@, s),
            forall|m: int| m < k ==> !#[trigger] wrong_size(s, m),
        decreases REQUIRED_SYMBOLS - k,
    {
        let size = s.info(k).size;
        if size != SPLICED_SYMBOL_SIZE {
            proof {
                assert(wrong_size(s, k as int));
            }
            return Err(
                Error::DynamicSymbolIncorrectSize {
                    name: required_symbol(k),
                    expected: SPLICED_SYMBOL_SIZE,
                    actual: size,
                },
            );
        }
        k += 1;
    }
    Ok(s)
}

/// Where no required name from the `k`-th on is missing, each of them occurs.
pub proof fn lemma_missing_none(syms: Seq<DynSymbol>, k: int)
    requires
        0 <= k,
        missing_names(syms, k).len() == 0,
    ensures
        forall|m: int| k <= m < 6 ==> #[trigger] present(syms, m),
    decreases 6 - k,
{
    if k < 6 {
        if present(syms, k) {
            lemma_missing_none(syms, k + 1);
        }
    }
}

/// Finds the dynamic symbol table of an image and the required symbols in it.
pub fn check_symbols(elf: &ElfImage) -> (r: Result<Symbols, Error>)
    ensures
        symbols_outcome(elf, r),
{
    match find_section_by_name(elf, ".dynsym") {
        None => Err(Error::DynamicSymbolTableNotFound),
        Some(i) => {
            assert(first_section_named(elf.sections@, ".dynsym"@, i as int));
            match &elf.sections[i].data {
                SectionData::DynSymbolTable64(syms) => scan_symbols(syms),
                _ => Err(Error::DynamicSymbolTableNotInDynsymSection),
            }
        },
    }
}

/// There is one first refused entry.
pub proof fn lemma_first_offender_unique(syms: Seq<DynSymbol>, i: int, j: int)
    requires
        first_offender(syms, i),
        first_offender(syms, j),
    ensures
        i == j,
{
    if i < j {
        assert(!offends(syms, i));
    } else if j < i {
        assert(!offends(syms, j));
    }
}

/// Where every required name occurs, the symbols that match the table are
/// determined.
pub proof fn lemma_symbols_match_unique(syms: Seq<DynSymbol>, a: Symbols, b: Symbols)
    requires
        missing_names(syms, 0).len() == 0,
        symbols_match(syms, a),
        symbols_match(syms, b),
    ensures
        a == b,
{
    lemma_missing_none(syms, 0);
    assert forall|k: int| 0 <= k < 6 implies a.get(k) == b.get(k) by {
        assert(present(syms, k));
        let j = choose|j: int| j < syms.len() && named_at(syms, k, j);
        assert(named_at(syms, k, j));
    }
    assert(a.get(0) == b.get(0));
    assert(a.get(1) == b.get(1));
    assert(a.get(2) == b.get(2));
    assert(a.get(3) == b.get(3));
    assert(a.get(4) == b.get(4));
    assert(a.get(5) == b.get(5));
}

/// The walk over a dynamic symbol table has one outcome.
pub proof fn lemma_scan_outcome_unique(
    syms: Seq<DynSymbol>,
    a: Result<Symbols, Error>,
    b: Result<Symbols, Error>,
)
    requires
        scan_outcome(syms, a),
        scan_outcome(syms, b),
    ensures
        same_result(a, b),
{
    assert forall|i: int, j: int| #[trigger]
        first_offender(syms, i) && #[trigger] first_offender(syms, j) implies i == j by {
        lemma_first_offender_unique(syms, i, j);
    }
    assert forall|i: int| #[trigger] first_offender(syms, i) implies !no_offender(syms) by {
        assert(offends(syms, i));
    }
    assert forall|s: Symbols, t: Symbols|
        missing_names(syms, 0).len() == 0 && #[trigger] symbols_match(syms, s)
            && #[trigger] symbols_match(syms, t) implies s == t by {
        lemma_symbols_match_unique(syms, s, t);
    }
    match (a, b) {
        (
            Err(Error::DynamicSymbolIncorrectSize { name: x, expected: e, actual: c }),
            Err(Error::DynamicSymbolIncorrectSize { name: y, expected: f, actual: d }),
        ) => {
            let (s, k) = choose|s: Symbols, k: int|
                {
                    &&& symbols_match(syms, s)
                    &&& #[trigger] wrong_size(s, k)
                    &&& forall|m: int| m < k ==> !#[trigger] wrong_size(s, m)
                    &&& x@ == required_name(k)
                    &&& e == 8
                    &&& c == s.get(k).size
                };
            let (t, m) = choose|t: Symbols, m: int|
                {
                    &&& symbols_match(syms, t)
                    &&& #[trigger] wrong_size(t, m)
                    &&& forall|n: int| n < m ==> !#[trigger] wrong_size(t, n)
                    &&& y@ == required_name(m)
                    &&& f == 8
                    &&& d == t.get(m).size
                };
            assert(s == t);
            if k < m {
                assert(!wrong_size(t, k));
            } else if m < k {
                assert(!wrong_size(s, m));
            }
        },
        (Err(Error::DynamicSymbolMissing(x)), Err(Error::DynamicSymbolMissing(y))) => {},
        (Ok(s), Ok(t)) => {},
        _ => {},
    }
}

/// There is one first section of a name.
pub proof fn lemma_first_section_unique(sections: Seq<Section>, name: Seq<char>, i: int, j: int)
    requires
        first_section_named(sections, name, i),
        first_section_named(sections, name, j),
    ensures
        i == j,
{
    if i < j {
        assert(!section_named(sections[i], name));
    } else if j < i {
        assert(!section_named(sections[j], name));
    }
}

/// The search for the required symbols of an image has one outcome.
pub proof fn lemma_symbols_outcome_unique(
    elf: &ElfImage,
    a: Result<Symbols, Error>,
    b: Result<Symbols, Error>,
)
    requires
        symbols_outcome(elf, a),
        symbols_outcome(elf, b),
    ensures
        same_result(a, b),
{
    let sections = elf.sections@;
    let name = ".dynsym"@;
    assert forall|i: int, j: int| #[trigger]
        first_section_named(sections, name, i) && #[trigger] first_section_named(
            sections,
            name,
            j,
        ) implies i == j by {
        lemma_first_section_unique(sections, name, i, j);
    }
    assert forall|i: int| #[trigger] first_section_named(sections, name, i) implies has_section_named(
        sections,
        name,
    ) by {
        assert(section_named(sections[i], name));
    }
    if exists|i: int| first_section_named(sections, name, i) {
        let i = choose|i: int| first_section_named(sections, name, i);
        match sections[i].data {
            SectionData::DynSymbolTable64(v) => {
                assert(scan_outcome(v@, a));
                assert(scan_outcome(v@, b));
                lemma_scan_outcome_unique(v@, a, b);
            },
            _ => {},
        }
    }
}

} // verus!
