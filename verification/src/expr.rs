//! Symbolica expressions and symbols, as the library uses them.
//!
//! An expression is carried through the library as it is: Verus sees nothing inside one.
//! Each function here makes one call into Symbolica.

use vstd::prelude::*;
use vstd::string::StringExecFns;

use symbolica::atom::{
    Atom, AtomCore, FunctionBuilder, NamespacedSymbol, Symbol, SymbolAttribute, SymbolBuilder,
};
use symbolica::id::Pattern;

use crate::text::decimal;

verus! {

/// Symbolica's expression type `Atom`, carried through opaque.
#[verifier::external_type_specification]
#[verifier::external_body]
pub struct ExAtom(Atom);

/// Symbolica's interned symbol `Symbol`, carried through opaque.
#[verifier::external_type_specification]
#[verifier::external_body]
pub struct ExSymbol(Symbol);

/// A character Symbolica accepts in a namespace or a symbol name, and that has no special
/// meaning there.
pub open spec fn is_name_char(c: char) -> bool {
    ('a' <= c && c <= 'z') || ('A' <= c && c <= 'Z') || ('0' <= c && c <= '9') || c == '_'
}

/// A namespace or symbol name made of ASCII letters, digits and underscores, that starts with
/// a letter and does not end with an underscore (a trailing underscore makes a wildcard).
pub open spec fn is_plain_ident(s: Seq<char>) -> bool {
    &&& s.len() > 0
    &&& forall|i: int| 0 <= i < s.len() ==> is_name_char(#[trigger] s[i])
    &&& (('a' <= s[0] && s[0] <= 'z') || ('A' <= s[0] && s[0] <= 'Z'))
    &&& s.last() != '_'
}

/// `namespace::name`, both plain identifiers.
pub open spec fn is_plain_symbol_name(s: Seq<char>) -> bool {
    exists|ns: Seq<char>, id: Seq<char>|
        is_plain_ident(ns) && is_plain_ident(id) && s == ns + seq![':', ':'] + id
}

/// The namespace of every symbol the library defines.
pub open spec fn own_namespace() -> Seq<char> {
    seq!['o', 'n', 'e', 'l', 'o', 'o', 'p', 'r', 'e', 'd', 'u', 'c', 'e']
}

/// The characters of `decimal(n)` are digits.
pub proof fn lemma_decimal_digits(n: nat)
    ensures
        decimal(n).len() > 0,
        forall|i: int| 0 <= i < decimal(n).len() ==> {
            let c = #[trigger] decimal(n)[i];
            '0' <= c && c <= '9'
        },
    decreases n,
{
    if n >= 10 {
        lemma_decimal_digits(n / 10);
    }
}

/// A name in the library's namespace is a plain symbol name when its local part is plain.
pub proof fn lemma_own_name(local: Seq<char>)
    requires
        is_plain_ident(local),
    ensures
        is_plain_symbol_name(own_namespace() + seq![':', ':'] + local),
{
    let ns = own_namespace();
    assert(is_plain_ident(ns));
}

/// Symbolica's `SymbolBuilder::new(NamespacedSymbol::parse(name)).build()`, for a symbol
/// without attributes: it hands back the symbol registered under `name`, registering it first
/// when there is none. `parse` splits at the last `::`, and `build` refuses only names whose
/// namespace or symbol part is empty, starts with a digit, or holds an operator, whitespace
/// or reserved character, so for a name of this form it does not fail (Symbolica itself
/// aborts once `u32::MAX` symbols exist). Which symbol comes back depends on the process's
/// symbol table, so nothing is stated of it.
#[verifier::external_body]
fn plain_symbol(name: &str) -> (s: Symbol)
    requires
        is_plain_symbol_name(name@),
{
    SymbolBuilder::new(NamespacedSymbol::parse(name)).build().unwrap()
}

/// A symbol together with the name it was looked up under. Only [`named_symbol`] makes one,
/// so the symbol is always the one Symbolica handed back for that name.
pub struct NamedSymbol {
    symbol: Symbol,
    name: Ghost<Seq<char>>,
}

impl NamedSymbol {
    /// The name the symbol was looked up under.
    pub closed spec fn name(&self) -> Seq<char> {
        self.name@
    }

    /// The symbol.
    pub closed spec fn symbol_value(&self) -> Symbol {
        self.symbol
    }

    /// The symbol.
    pub fn symbol(&self) -> (s: Symbol)
        ensures
            s == self.symbol_value(),
    {
        self.symbol
    }
}

/// The symbol registered under `name`, without attributes, with the name it was looked up
/// under.
pub(crate) fn named_symbol(name: &str) -> (s: NamedSymbol)
    requires
        is_plain_symbol_name(name@),
    ensures
        s.name() == name@,
{
    NamedSymbol { symbol: plain_symbol(name), name: Ghost(name@) }
}

/// Symbolica's `SymbolBuilder::new(NamespacedSymbol::parse(name)).with_attributes(&[Symmetric,
/// Linear]).build()`: it fails when the name is already registered with other attributes,
/// which depends on the process's symbol table, so nothing is stated of the outcome.
#[verifier::external_body]
pub(crate) fn symmetric_linear_symbol(name: &str) -> (r: Result<Symbol, String>)
    requires
        is_plain_symbol_name(name@),
{
    match SymbolBuilder::new(NamespacedSymbol::parse(name)).with_attributes(
        &[SymbolAttribute::Symmetric, SymbolAttribute::Linear],
    ).build() {
        Ok(s) => Ok(s),
        Err(e) => Err(e.to_string()),
    }
}

/// Symbolica's `Atom::var`: the expression made of one symbol.
#[verifier::external_body]
pub(crate) fn var(s: Symbol) -> (a: Atom) {
    Atom::var(s)
}

/// Symbolica's `Atom::num`: an integer as an expression.
#[verifier::external_body]
pub(crate) fn num(n: i64) -> (a: Atom) {
    Atom::num(n)
}

/// Symbolica's `Atom::Zero`.
#[verifier::external_body]
pub(crate) fn zero() -> (a: Atom) {
    Atom::Zero
}

/// Symbolica's `FunctionBuilder`: `head(args...)`.
#[verifier::external_body]
pub(crate) fn apply(head: Symbol, args: &Vec<&Atom>) -> (a: Atom) {
    FunctionBuilder::new(head).add_args(args.iter().copied()).finish()
}

/// Symbolica's `&Atom + &Atom`.
#[verifier::external_body]
pub(crate) fn plus(a: &Atom, b: &Atom) -> (c: Atom) {
    a + b
}

/// Symbolica's `&Atom - &Atom`.
#[verifier::external_body]
pub(crate) fn minus(a: &Atom, b: &Atom) -> (c: Atom) {
    a - b
}

/// Symbolica's `&Atom * &Atom`.
#[verifier::external_body]
pub(crate) fn times(a: &Atom, b: &Atom) -> (c: Atom) {
    a * b
}

/// Symbolica's `AtomCore::derivative`: the derivative of `a` in `x`.
#[verifier::external_body]
pub(crate) fn derivative(a: &Atom, x: Symbol) -> (d: Atom) {
    a.derivative(x)
}

/// Symbolica's `AtomCore::expand`.
#[verifier::external_body]
pub(crate) fn expand(a: &Atom) -> (e: Atom) {
    a.expand()
}

/// Symbolica's `AtomCore::replace(..).with(..)`: every match of `pattern` in `a` replaced by
/// `rhs`. The right-hand side is handed over as a literal pattern, `Pattern::Literal`, which
/// is copied in as it is: no wildcard of it is substituted, so the substitution step, which
/// unwraps its result, cannot fail. For a right-hand side without wildcards (a symbol whose
/// name ends in `_`) this is the same replacement as with `rhs.to_pattern()`.
#[verifier::external_body]
pub(crate) fn replace(a: &Atom, pattern: &Atom, rhs: &Atom) -> (r: Atom) {
    a.replace(pattern.to_pattern()).with(Pattern::Literal(rhs.clone()))
}

/// Symbolica's `==` on expressions: it compares the two expressions' representations, so an
/// expression equals itself.
#[verifier::external_body]
pub(crate) fn same(a: &Atom, b: &Atom) -> (r: bool)
    ensures
        *a == *b ==> r,
{
    a == b
}

/// Symbolica's `Display` of an expression.
#[verifier::external_body]
pub(crate) fn text_of(a: &Atom) -> (s: String) {
    a.to_string()
}

/// Symbolica's `Clone` of an expression (derived): the same expression.
#[verifier::external_body]
pub(crate) fn copy_of(a: &Atom) -> (c: Atom)
    ensures
        c == *a,
{
    a.clone()
}

} // verus!
