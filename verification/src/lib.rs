//! A compiler from structural interface declarations to runtime type-guard
//! functions: a lexer, a stack-based structural parser, a fixed sequence of
//! tree-rewrite passes, and a code generator that emits boolean-expression
//! source text, one guard function per declared type.
use vstd::prelude::*;

pub mod cmd;
pub mod js;
pub mod lexer;
pub mod parsers;
pub mod sem;

pub use cmd::Extension;
pub use cmd::get_extension;

verus! {

/// Why a compilation run was refused: every grammar or configuration
/// violation is fatal to the whole run, with no partial output.
#[derive(Clone, Copy, PartialEq, Eq, Structural, Debug)]
pub enum CompileError {
    /// An `interface` keyword is not followed by a name.
    MissingInterfaceName,
    /// An `interface` keyword appears while an earlier declaration is
    /// still open.
    NestedInterface,
    /// Parsing ends with more or fewer than one open tree.
    UnbalancedDeclaration,
    /// A type form stands outside any declaration.
    ValueOutsideDeclaration,
    /// A generic application closes with no arguments collected.
    EmptyGenericArgs,
    /// A generic argument list follows something other than a type name.
    BadGenericHead,
    /// An array suffix has no type expression before it.
    MissingArraySubject,
    /// An opening bracket stands at the very end of a child sequence,
    /// where the grammar's look-ahead is missing.
    UnmatchedBracket,
    /// A top-level tree carries no declared name.
    UnnamedDeclaration,
    /// Named-type references nest deeper than the declaration count allows:
    /// the reference graph has a cycle.
    CycleDetected,
    /// The declaration-only target has no function-body form to emit.
    AnnotatedOnlyTarget,
    /// A binary-connective node does not hold exactly two children.
    MalformedConnective,
}

/// One deep grouping pass applied to every declared-type tree.
pub open spec fn spec_stage_deep(p: parsers::ValuePass, ts: Seq<parsers::EntryV>) -> Result<
    Seq<parsers::EntryV>,
    CompileError,
>
    decreases ts.len(),
{
    if ts.len() == 0 {
        Ok(Seq::<parsers::EntryV>::empty())
    } else {
        match parsers::spec_deep_pass(p, ts[0]) {
            Ok(e) => match spec_stage_deep(p, ts.drop_first()) {
                Ok(r) => Ok(seq![e] + r),
                Err(er) => Err(er),
            },
            Err(er) => Err(er),
        }
    }
}

/// Tuple grouping applied to every declared-type tree.
pub open spec fn spec_stage_tuples(ts: Seq<parsers::EntryV>) -> Result<
    Seq<parsers::EntryV>,
    CompileError,
>
    decreases ts.len(),
{
    if ts.len() == 0 {
        Ok(Seq::<parsers::EntryV>::empty())
    } else {
        match parsers::spec_tuple_entry(ts[0]) {
            Ok(e) => match spec_stage_tuples(ts.drop_first()) {
                Ok(r) => Ok(seq![e] + r),
                Err(er) => Err(er),
            },
            Err(er) => Err(er),
        }
    }
}

/// Parenthesis grouping applied to every declared-type tree.
pub open spec fn spec_stage_parens(ts: Seq<parsers::EntryV>) -> Seq<parsers::EntryV> {
    ts.map_values(|e: parsers::EntryV| parsers::spec_paren_entry(e))
}

/// One connective folded throughout every declared-type tree.
pub open spec fn spec_stage_fold(op: lexer::Oper, ts: Seq<parsers::EntryV>) -> Seq<
    parsers::EntryV,
> {
    ts.map_values(|e: parsers::EntryV| parsers::spec_fold_entry(op, e))
}

/// Named-type inlining applied to every tree, each against the same
/// read-only snapshot of the whole set.
pub open spec fn spec_stage_inline(ts: Seq<parsers::EntryV>) -> Result<
    Seq<parsers::EntryV>,
    CompileError,
> {
    spec_stage_inline_from(ts, ts, 0)
}

/// The inlining stage from tree `i` on, every tree read against the
/// unchanged snapshot.
pub open spec fn spec_stage_inline_from(
    ts: Seq<parsers::EntryV>,
    snapshot: Seq<parsers::EntryV>,
    i: int,
) -> Result<Seq<parsers::EntryV>, CompileError>
    decreases ts.len() - i when 0 <= i
{
    if i >= ts.len() {
        Ok(Seq::<parsers::EntryV>::empty())
    } else {
        match parsers::spec_inline_entry(ts[i], snapshot, parsers::spec_inline_fuel(snapshot)) {
            Ok(e) => match spec_stage_inline_from(ts, snapshot, i + 1) {
                Ok(r) => Ok(seq![e] + r),
                Err(er) => Err(er),
            },
            Err(er) => Err(er),
        }
    }
}

/// The rewrite stage: the seven passes in their fixed order — generic
/// grouping, tuple grouping, array-suffix grouping, parenthesis grouping,
/// conjunction folding, disjunction folding, named-type inlining,
/// declaration merging.
pub open spec fn spec_rewrite(ts: Seq<parsers::EntryV>) -> Result<
    Seq<parsers::EntryV>,
    CompileError,
> {
    match spec_stage_deep(parsers::ValuePass::Generics, ts) {
        Err(er) => Err(er),
        Ok(t1) => match spec_stage_tuples(t1) {
            Err(er) => Err(er),
            Ok(t2) => match spec_stage_deep(parsers::ValuePass::Arrays, t2) {
                Err(er) => Err(er),
                Ok(t3) => {
                    let t4 = spec_stage_parens(t3);
                    let t5 = spec_stage_fold(lexer::Oper::And, t4);
                    let t6 = spec_stage_fold(lexer::Oper::Or, t5);
                    match spec_stage_inline(t6) {
                        Err(er) => Err(er),
                        Ok(t7) => parsers::spec_merge(t7),
                    }
                },
            },
        },
    }
}

/// The whole front end and rewrite stage: pre-filter, lexer, structural
/// parser, then the seven passes, yielding the final declared-type trees
/// in first-declaration order, or the first fatal violation.
pub open spec fn spec_compile(src: Seq<u8>) -> Result<Seq<parsers::EntryV>, CompileError> {
    match parsers::spec_parse_interfaces(
        lexer::spec_tokenize(lexer::spec_find_interfaces(src)),
    ) {
        Err(er) => Err(er),
        Ok(ts) => spec_rewrite(ts),
    }
}

/// Compiles declaration source text into its final declared-type trees:
/// the lexer's pre-filter and scan, the structural parse, and the seven
/// rewrite passes in order. Every grammar violation is fatal to the whole
/// run.
pub fn compile(source: &Vec<u8>) -> (r: Result<Vec<parsers::Entry>, CompileError>)
    ensures
        match r {
            Ok(v) => spec_compile(source@) == Ok::<_, CompileError>(parsers::entries_view(v@)),
            Err(e) => spec_compile(source@) == Err::<Seq<parsers::EntryV>, _>(e),
        },
{
    let filtered = lexer::find_interfaces(source);
    let tokens = lexer::tokenize(&filtered);
    let mut interfaces = match parsers::parse_interfaces(tokens) {
        Ok(v) => v,
        Err(e) => {
            return Err(e);
        },
    };
    match apply_deep_stage(&mut interfaces, parsers::ValuePass::Generics) {
        Ok(_) => (),
        Err(e) => {
            return Err(e);
        },
    }
    match apply_tuple_stage(&mut interfaces) {
        Ok(_) => (),
        Err(e) => {
            return Err(e);
        },
    }
    match apply_deep_stage(&mut interfaces, parsers::ValuePass::Arrays) {
        Ok(_) => (),
        Err(e) => {
            return Err(e);
        },
    }
    apply_paren_stage(&mut interfaces);
    apply_fold_stage(&mut interfaces, lexer::Oper::And);
    apply_fold_stage(&mut interfaces, lexer::Oper::Or);
    match apply_inline_stage(&mut interfaces) {
        Ok(_) => (),
        Err(e) => {
            return Err(e);
        },
    }
    match parsers::merge_interfaces(&mut interfaces) {
        Ok(_) => (),
        Err(e) => {
            return Err(e);
        },
    }
    Ok(interfaces)
}

fn apply_deep_stage(interfaces: &mut Vec<parsers::Entry>, p: parsers::ValuePass) -> (r: Result<
    (),
    CompileError,
>)
    ensures
        match r {
            Ok(_) => spec_stage_deep(p, parsers::entries_view(old(interfaces)@)) == Ok::<
                _,
                CompileError,
            >(parsers::entries_view(final(interfaces)@)),
            Err(e) => spec_stage_deep(p, parsers::entries_view(old(interfaces)@)) == Err::<
                Seq<parsers::EntryV>,
                _,
            >(e),
        },
{
    let ghost ev = parsers::entries_view(interfaces@);
    proof {
        parsers::lemma_entries_view(interfaces@);
    }
    let mut out: Vec<parsers::Entry> = Vec::new();
    let mut i: usize = 0;
    proof {
        assert(parsers::entries_view(out@) =~= Seq::<parsers::EntryV>::empty());
        assert(ev.skip(0) =~= ev);
    }
    while i < interfaces.len()
        invariant
            i <= interfaces@.len(),
            ev == parsers::entries_view(interfaces@),
            ev.len() == interfaces@.len(),
            forall|k: int|
                0 <= k < interfaces@.len() ==> ev[k] == parsers::entry_view(interfaces@[k]),
            spec_stage_deep(p, ev) == (match spec_stage_deep(p, ev.skip(i as int)) {
                Ok(r) => Ok::<Seq<parsers::EntryV>, CompileError>(
                    parsers::entries_view(out@) + r,
                ),
                Err(e) => Err(e),
            }),
        decreases interfaces@.len() - i,
    {
        let ghost prev_out = parsers::entries_view(out@);
        proof {
            parsers::lemma_entries_view(out@);
            assert(ev.skip(i as int)[0] == ev[i as int]);
            assert(ev.skip(i as int).drop_first() =~= ev.skip(i + 1));
        }
        let mut e = parsers::copy_entry(&interfaces[i]);
        match parsers::for_each_value(&mut e, p) {
            Ok(_) => {
                let ghost nv = parsers::entry_view(e);
                let ghost ob = out@;
                proof {
                    parsers::lemma_entries_view_push(ob, e);
                }
                out.push(e);
                proof {
                    assert(parsers::entries_view(out@) == prev_out.push(nv));
                    match spec_stage_deep(p, ev.skip(i + 1)) {
                        Ok(rr) => {
                            assert(parsers::entries_view(out@) + rr =~= prev_out + (seq![nv]
                                + rr));
                        },
                        Err(_) => {},
                    }
                }
                i += 1;
            },
            Err(er) => {
                return Err(er);
            },
        }
    }
    proof {
        assert(ev.skip(interfaces@.len() as int) =~= Seq::<parsers::EntryV>::empty());
        assert(parsers::entries_view(out@) + Seq::<parsers::EntryV>::empty()
            =~= parsers::entries_view(out@));
    }
    *interfaces = out;
    Ok(())
}

fn apply_tuple_stage(interfaces: &mut Vec<parsers::Entry>) -> (r: Result<(), CompileError>)
    ensures
        match r {
            Ok(_) => spec_stage_tuples(parsers::entries_view(old(interfaces)@)) == Ok::<
                _,
                CompileError,
            >(parsers::entries_view(final(interfaces)@)),
            Err(e) => spec_stage_tuples(parsers::entries_view(old(interfaces)@)) == Err::<
                Seq<parsers::EntryV>,
                _,
            >(e),
        },
{
    let ghost ev = parsers::entries_view(interfaces@);
    proof {
        parsers::lemma_entries_view(interfaces@);
    }
    let mut out: Vec<parsers::Entry> = Vec::new();
    let mut i: usize = 0;
    proof {
        assert(parsers::entries_view(out@) =~= Seq::<parsers::EntryV>::empty());
        assert(ev.skip(0) =~= ev);
    }
    while i < interfaces.len()
        invariant
            i <= interfaces@.len(),
            ev == parsers::entries_view(interfaces@),
            ev.len() == interfaces@.len(),
            forall|k: int|
                0 <= k < interfaces@.len() ==> ev[k] == parsers::entry_view(interfaces@[k]),
            spec_stage_tuples(ev) == (match spec_stage_tuples(ev.skip(i as int)) {
                Ok(r) => Ok::<Seq<parsers::EntryV>, CompileError>(
                    parsers::entries_view(out@) + r,
                ),
                Err(e) => Err(e),
            }),
        decreases interfaces@.len() - i,
    {
        let ghost prev_out = parsers::entries_view(out@);
        proof {
            parsers::lemma_entries_view(out@);
            assert(ev.skip(i as int)[0] == ev[i as int]);
            assert(ev.skip(i as int).drop_first() =~= ev.skip(i + 1));
        }
        let mut e = parsers::copy_entry(&interfaces[i]);
        match parsers::parse_tuples(&mut e) {
            Ok(_) => {
                let ghost nv = parsers::entry_view(e);
                let ghost ob = out@;
                proof {
                    parsers::lemma_entries_view_push(ob, e);
                }
                out.push(e);
                proof {
                    assert(parsers::entries_view(out@) == prev_out.push(nv));
                    match spec_stage_tuples(ev.skip(i + 1)) {
                        Ok(rr) => {
                            assert(parsers::entries_view(out@) + rr =~= prev_out + (seq![nv]
                                + rr));
                        },
                        Err(_) => {},
                    }
                }
                i += 1;
            },
            Err(er) => {
                return Err(er);
            },
        }
    }
    proof {
        assert(ev.skip(interfaces@.len() as int) =~= Seq::<parsers::EntryV>::empty());
        assert(parsers::entries_view(out@) + Seq::<parsers::EntryV>::empty()
            =~= parsers::entries_view(out@));
    }
    *interfaces = out;
    Ok(())
}

fn apply_paren_stage(interfaces: &mut Vec<parsers::Entry>)
    ensures
        parsers::entries_view(final(interfaces)@) == spec_stage_parens(
            parsers::entries_view(old(interfaces)@),
        ),
{
    let ghost ev = parsers::entries_view(interfaces@);
    proof {
        parsers::lemma_entries_view(interfaces@);
    }
    let mut out: Vec<parsers::Entry> = Vec::new();
    let mut i: usize = 0;
    while i < interfaces.len()
        invariant
            i <= interfaces@.len(),
            ev == parsers::entries_view(interfaces@),
            ev.len() == interfaces@.len(),
            forall|k: int|
                0 <= k < interfaces@.len() ==> ev[k] == parsers::entry_view(interfaces@[k]),
            out@.len() == i,
            forall|k: int|
                0 <= k < i ==> parsers::entry_view(#[trigger] out@[k])
                    == parsers::spec_paren_entry(ev[k]),
        decreases interfaces@.len() - i,
    {
        let mut e = parsers::copy_entry(&interfaces[i]);
        parsers::parse_parens(&mut e);
        out.push(e);
        i += 1;
    }
    proof {
        parsers::lemma_entries_view(out@);
        assert(parsers::entries_view(out@) =~= spec_stage_parens(ev));
    }
    *interfaces = out;
}

fn apply_fold_stage(interfaces: &mut Vec<parsers::Entry>, op: lexer::Oper)
    ensures
        parsers::entries_view(final(interfaces)@) == spec_stage_fold(
            op,
            parsers::entries_view(old(interfaces)@),
        ),
{
    let ghost ev = parsers::entries_view(interfaces@);
    proof {
        parsers::lemma_entries_view(interfaces@);
    }
    let mut out: Vec<parsers::Entry> = Vec::new();
    let mut i: usize = 0;
    while i < interfaces.len()
        invariant
            i <= interfaces@.len(),
            ev == parsers::entries_view(interfaces@),
            ev.len() == interfaces@.len(),
            forall|k: int|
                0 <= k < interfaces@.len() ==> ev[k] == parsers::entry_view(interfaces@[k]),
            out@.len() == i,
            forall|k: int|
                0 <= k < i ==> parsers::entry_view(#[trigger] out@[k]) == parsers::spec_fold_entry(
                    op,
                    ev[k],
                ),
        decreases interfaces@.len() - i,
    {
        let mut e = parsers::copy_entry(&interfaces[i]);
        if matches!(op, lexer::Oper::And) {
            parsers::parse_and(&mut e);
        } else {
            parsers::parse_or(&mut e);
        }
        out.push(e);
        i += 1;
    }
    proof {
        parsers::lemma_entries_view(out@);
        assert(parsers::entries_view(out@) =~= spec_stage_fold(op, ev));
    }
    *interfaces = out;
}

fn apply_inline_stage(interfaces: &mut Vec<parsers::Entry>) -> (r: Result<(), CompileError>)
    ensures
        match r {
            Ok(_) => spec_stage_inline(parsers::entries_view(old(interfaces)@)) == Ok::<
                _,
                CompileError,
            >(parsers::entries_view(final(interfaces)@)),
            Err(e) => spec_stage_inline(parsers::entries_view(old(interfaces)@)) == Err::<
                Seq<parsers::EntryV>,
                _,
            >(e),
        },
{
    let ghost ev = parsers::entries_view(interfaces@);
    proof {
        parsers::lemma_entries_view(interfaces@);
    }
    let snapshot = parsers::copy_entries(interfaces);
    proof {
        parsers::lemma_entries_view(snapshot@);
    }
    let mut out: Vec<parsers::Entry> = Vec::new();
    let mut i: usize = 0;
    proof {
        assert(parsers::entries_view(out@) =~= Seq::<parsers::EntryV>::empty());
    }
    while i < interfaces.len()
        invariant
            i <= interfaces@.len(),
            ev == parsers::entries_view(interfaces@),
            ev == parsers::entries_view(snapshot@),
            ev.len() == interfaces@.len(),
            snapshot@.len() == interfaces@.len(),
            forall|k: int|
                0 <= k < interfaces@.len() ==> ev[k] == parsers::entry_view(interfaces@[k]),
            spec_stage_inline(ev) == (match spec_stage_inline_from(ev, ev, i as int) {
                Ok(r) => Ok::<Seq<parsers::EntryV>, CompileError>(
                    parsers::entries_view(out@) + r,
                ),
                Err(e) => Err(e),
            }),
        decreases interfaces@.len() - i,
    {
        let ghost prev_out = parsers::entries_view(out@);
        proof {
            parsers::lemma_entries_view(out@);
        }
        let mut e = parsers::copy_entry(&interfaces[i]);
        match parsers::parse_custom_types(&mut e, &snapshot) {
            Ok(_) => {
                let ghost nv = parsers::entry_view(e);
                let ghost ob = out@;
                proof {
                    parsers::lemma_entries_view_push(ob, e);
                }
                out.push(e);
                proof {
                    assert(parsers::entries_view(out@) == prev_out.push(nv));
                    match spec_stage_inline_from(ev, ev, i + 1) {
                        Ok(rr) => {
                            assert(parsers::entries_view(out@) + rr =~= prev_out + (seq![nv]
                                + rr));
                        },
                        Err(_) => {},
                    }
                }
                i += 1;
            },
            Err(er) => {
                return Err(er);
            },
        }
    }
    proof {
        assert(parsers::entries_view(out@) + Seq::<parsers::EntryV>::empty()
            =~= parsers::entries_view(out@));
    }
    *interfaces = out;
    Ok(())
}

/// Emits the guard-function text for a set of compiled declared types, in
/// the flavour the target mode selects.
pub fn generate(interfaces: &Vec<parsers::Entry>, extension: Extension) -> (r: Result<
    Vec<u8>,
    CompileError,
>)
    ensures
        match r {
            Ok(text) => js::spec_generate(parsers::entries_view(interfaces@), extension) == Ok::<
                _,
                CompileError,
            >(text@),
            Err(e) => js::spec_generate(parsers::entries_view(interfaces@), extension) == Err::<
                Seq<u8>,
                _,
            >(e),
        },
{
    js::interfaces_to_js_string(interfaces, extension)
}

/// What a successful inlining stage says of each tree: every tree was
/// inlined against the snapshot, in order.
pub proof fn lemma_stage_inline_elementwise(ts: Seq<parsers::EntryV>, us: Seq<parsers::EntryV>)
    requires
        spec_stage_inline(ts) == Ok::<_, CompileError>(us),
    ensures
        us.len() == ts.len(),
        forall|i: int|
            0 <= i < ts.len() ==> parsers::spec_inline_entry(
                ts[i],
                ts,
                parsers::spec_inline_fuel(ts),
            ) == Ok::<parsers::EntryV, CompileError>(#[trigger] us[i]),
{
    lemma_stage_inline_from_elementwise(ts, ts, 0, us);
    assert forall|i: int| 0 <= i < ts.len() implies parsers::spec_inline_entry(
        ts[i],
        ts,
        parsers::spec_inline_fuel(ts),
    ) == Ok::<parsers::EntryV, CompileError>(#[trigger] us[i]) by {
        assert(parsers::spec_inline_entry(ts[i], ts, parsers::spec_inline_fuel(ts)) == Ok::<
            parsers::EntryV,
            CompileError,
        >(us[i - 0]));
    }
}

proof fn lemma_stage_inline_from_elementwise(
    ts: Seq<parsers::EntryV>,
    snapshot: Seq<parsers::EntryV>,
    i: int,
    us: Seq<parsers::EntryV>,
)
    requires
        0 <= i <= ts.len(),
        spec_stage_inline_from(ts, snapshot, i) == Ok::<_, CompileError>(us),
    ensures
        us.len() == ts.len() - i,
        forall|k: int|
            i <= k < ts.len() ==> parsers::spec_inline_entry(
                ts[k],
                snapshot,
                parsers::spec_inline_fuel(snapshot),
            ) == Ok::<parsers::EntryV, CompileError>(#[trigger] us[k - i]),
    decreases ts.len() - i,
{
    if i < ts.len() {
        let head = parsers::spec_inline_entry(
            ts[i],
            snapshot,
            parsers::spec_inline_fuel(snapshot),
        ).unwrap();
        let rest = spec_stage_inline_from(ts, snapshot, i + 1).unwrap();
        lemma_stage_inline_from_elementwise(ts, snapshot, i + 1, rest);
        assert(us =~= seq![head] + rest);
        assert(us[0] == head);
        assert(forall|k: int| i < k < ts.len() ==> #[trigger] us[k - i] == rest[k - (i + 1)]);
    }
}

proof fn lemma_stage_inline_identity_from(us: Seq<parsers::EntryV>, i: int)
    requires
        0 <= i <= us.len(),
        forall|k: int|
            0 <= k < us.len() ==> parsers::spec_inline_entry(
                #[trigger] us[k],
                us,
                parsers::spec_inline_fuel(us),
            ) == Ok::<parsers::EntryV, CompileError>(us[k]),
    ensures
        spec_stage_inline_from(us, us, i) == Ok::<_, CompileError>(us.skip(i)),
    decreases us.len() - i,
{
    if i >= us.len() {
        assert(us.skip(i) =~= Seq::<parsers::EntryV>::empty());
    } else {
        lemma_stage_inline_identity_from(us, i + 1);
        assert(seq![us[i]] + us.skip(i + 1) =~= us.skip(i));
    }
}

/// Named-type inlining is idempotent on the sets it succeeds on: running
/// the stage again over its own result gives that result back, because a
/// successful run leaves no reference to a declared type anywhere.
pub proof fn lemma_inlining_idempotent(ts: Seq<parsers::EntryV>, us: Seq<parsers::EntryV>)
    requires
        spec_stage_inline(ts) == Ok::<_, CompileError>(us),
    ensures
        spec_stage_inline(us) == Ok::<_, CompileError>(us),
{
    lemma_stage_inline_elementwise(ts, us);
    assert forall|i: int| 0 <= i < us.len() implies parsers::spec_inline_entry(
        #[trigger] us[i],
        us,
        parsers::spec_inline_fuel(us),
    ) == Ok::<parsers::EntryV, CompileError>(us[i]) by {
        // the inlined tree holds no matching reference, against either set
        assert(parsers::spec_inline_entry(ts[i], ts, parsers::spec_inline_fuel(ts)) == Ok::<
            parsers::EntryV,
            CompileError,
        >(us[i]));
        parsers::lemma_inline_seq_resolves(
            ts[i].children,
            ts,
            parsers::spec_inline_fuel(ts),
        );
        assert(parsers::values_resolved(us[i].children, ts));
        assert(forall|k: int| 0 <= k < ts.len() ==> (#[trigger] ts[k]).key == us[k].key);
        parsers::lemma_resolved_seq_transfer(us[i].children, ts, us);
        parsers::lemma_resolved_seq_inline_identity(
            us[i].children,
            us,
            parsers::spec_inline_fuel(us),
        );
        assert(parsers::EntryV { key: us[i].key, children: us[i].children } == us[i]);
    }
    lemma_stage_inline_identity_from(us, 0);
    assert(us.skip(0) =~= us);
}

} // verus!
