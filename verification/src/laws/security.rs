//! Laws of ceilings, archives and paths.
use crate::csv;
use crate::security;
use crate::security::{Ledger, PathTraversalError, SecurityBudget, SecurityError, SecurityLimits};
use crate::text;
use vstd::prelude::*;

verus! {

/// A ledger after so many turns.
pub open spec fn turned(l: Ledger, n: nat) -> Ledger
    decreases n,
{
    if n == 0 {
        l
    } else {
        turned(l, (n - 1) as nat).stepped()
    }
}

/// A ledger after so many levels were entered.
pub open spec fn descended(l: Ledger, n: nat) -> Ledger
    decreases n,
{
    if n == 0 {
        l
    } else {
        descended(l, (n - 1) as nat).entered()
    }
}

/// Turns are accepted as long as there are no more of them than the ceiling allows, and the first one beyond it is
/// refused with its number.
pub proof fn law_turns_are_accepted_up_to_the_ceiling(l: Ledger, n: nat)
    requires
        l.verdict is Ok,
        l.budget.iteration.current_count <= l.budget.iteration.max_iterations < usize::MAX,
    ensures
        turned(l, n).verdict is Ok <==> l.budget.iteration.current_count + n <= l.budget.iteration.max_iterations,
        turned(l, n).verdict is Ok ==> turned(l, n).budget.iteration.current_count == l.budget.iteration.current_count + n,
        turned(l, n).budget.same_ceilings(l.budget),
        turned(l, n).verdict matches Err(e) ==> e == (SecurityError::TooManyIterations {
            count: (l.budget.iteration.max_iterations + 1) as usize,
            max: l.budget.iteration.max_iterations,
        }),
    decreases n,
{
    if n > 0 {
        law_turns_are_accepted_up_to_the_ceiling(l, (n - 1) as nat);
    }
}

/// Levels of nesting are accepted as long as they are no deeper than the ceiling allows, and the first one beyond it
/// is refused with its depth.
pub proof fn law_levels_are_accepted_up_to_the_ceiling(l: Ledger, n: nat)
    requires
        l.verdict is Ok,
        l.budget.depth.current_depth <= l.budget.depth.max_depth < usize::MAX,
    ensures
        descended(l, n).verdict is Ok <==> l.budget.depth.current_depth + n <= l.budget.depth.max_depth,
        descended(l, n).verdict is Ok ==> descended(l, n).budget.depth.current_depth == l.budget.depth.current_depth + n,
        descended(l, n).budget.same_ceilings(l.budget),
        descended(l, n).verdict matches Err(e) ==> e == (SecurityError::NestingTooDeep {
            depth: (l.budget.depth.max_depth + 1) as usize,
            max: l.budget.depth.max_depth,
        }),
    decreases n,
{
    if n > 0 {
        law_levels_are_accepted_up_to_the_ceiling(l, (n - 1) as nat);
    }
}

/// How many bytes texts take together.
pub open spec fn bytes_of(texts: Seq<Seq<char>>) -> nat
    decreases texts.len(),
{
    if texts.len() == 0 {
        0
    } else {
        bytes_of(texts.drop_last()) + vstd::utf8::encode_utf8(texts.last()).len()
    }
}

/// A ledger after texts.
pub open spec fn written(l: Ledger, texts: Seq<Seq<char>>) -> Ledger
    decreases texts.len(),
{
    if texts.len() == 0 {
        l
    } else {
        written(l, texts.drop_last()).accounted(texts.last())
    }
}

/// Texts are accepted if and only if they take no more bytes together than the ceiling allows.
pub proof fn law_texts_are_accepted_up_to_the_ceiling(l: Ledger, texts: Seq<Seq<char>>)
    requires
        l.verdict is Ok,
        l.budget.growth.current_size <= l.budget.growth.max_size < usize::MAX,
    ensures
        written(l, texts).verdict is Ok <==> l.budget.growth.current_size + bytes_of(texts) <= l.budget.growth.max_size,
        written(l, texts).verdict is Ok ==> written(l, texts).budget.growth.current_size == l.budget.growth.current_size
            + bytes_of(texts),
        written(l, texts).budget.same_ceilings(l.budget),
    decreases texts.len(),
{
    if texts.len() > 0 {
        law_texts_are_accepted_up_to_the_ceiling(l, texts.drop_last());
    }
}

/// A token is accepted if and only if it is no longer than the ceiling allows, and cells are accepted if and only if
/// there are no more of them than that; neither costs anything else.
pub proof fn law_tokens_and_cells_are_accepted_up_to_the_ceiling(l: Ledger, token: Seq<char>, count: nat)
    requires
        l.verdict is Ok,
        l.budget.table.max_cells < usize::MAX,
    ensures
        l.checked(token).verdict is Ok <==> vstd::utf8::encode_utf8(token).len() <= l.budget.entity.max_length,
        l.checked(token).budget == l.budget,
        l.tabulated(count).verdict is Ok <==> l.budget.table.current_cells + count <= l.budget.table.max_cells,
        l.tabulated(count).verdict is Ok ==> l.tabulated(count).budget.table.current_cells == l.budget.table.current_cells
            + count,
        l.left().verdict is Ok,
{
}

/// A level that is left does not count any more: entering and leaving levels one after the other is never refused
/// where one of them is accepted.
pub proof fn law_levels_that_are_left_do_not_count(l: Ledger)
    requires
        l.verdict is Ok,
        l.budget.depth.current_depth < l.budget.depth.max_depth,
    ensures
        l.entered().left().budget == l.budget,
        l.entered().left().verdict is Ok,
{
    security::law_leaving_undoes_entering(l.budget);
}

/// How many fields rows have together.
pub open spec fn fields_of(rows: Seq<Seq<Seq<char>>>) -> nat
    decreases rows.len(),
{
    if rows.len() == 0 {
        0
    } else {
        fields_of(rows.drop_last()) + rows.last().len()
    }
}

/// How many bytes the fields of rows take together.
pub open spec fn row_bytes(rows: Seq<Seq<Seq<char>>>) -> nat
    decreases rows.len(),
{
    if rows.len() == 0 {
        0
    } else {
        row_bytes(rows.drop_last()) + bytes_of(rows.last())
    }
}

/// Whether every field of a row is short enough.
pub open spec fn short_fields(row: Seq<Seq<char>>, max: usize) -> bool {
    forall|j: int| 0 <= j < row.len() ==> vstd::utf8::encode_utf8(#[trigger] row[j]).len() <= max
}

proof fn lemma_fields_pass(budget: SecurityBudget, cells: Seq<Seq<char>>)
    requires
        short_fields(cells, budget.entity.max_length),
        budget.growth.current_size + bytes_of(cells) <= budget.growth.max_size,
    ensures
        csv::cells_charged(budget, cells).1 is Ok,
        csv::cells_charged(budget, cells).0 == (SecurityBudget {
            growth: security::StringGrowthValidator {
                current_size: (budget.growth.current_size + bytes_of(cells)) as usize,
                ..budget.growth
            },
            ..budget
        }),
    decreases cells.len(),
{
    if cells.len() > 0 {
        let init = cells.drop_last();
        assert(vstd::utf8::encode_utf8(cells[cells.len() - 1]).len() <= budget.entity.max_length);
        assert forall|j: int| 0 <= j < init.len() implies vstd::utf8::encode_utf8(#[trigger] init[j]).len()
            <= budget.entity.max_length by {
            assert(vstd::utf8::encode_utf8(cells[j]).len() <= budget.entity.max_length);
        }
        lemma_fields_pass(budget, init);
    }
}

/// Rows that are within the ceilings are accepted: no more rows than turns, no more fields than cells, no field longer
/// than a token, and no more bytes together than the text may take.
pub proof fn law_rows_within_the_ceilings_are_accepted(budget: SecurityBudget, rows: Seq<Seq<Seq<char>>>)
    requires
        budget.iteration.current_count + rows.len() <= budget.iteration.max_iterations,
        budget.table.current_cells + fields_of(rows) <= budget.table.max_cells,
        budget.growth.current_size + row_bytes(rows) <= budget.growth.max_size,
        forall|i: int| 0 <= i < rows.len() ==> short_fields(#[trigger] rows[i], budget.entity.max_length),
    ensures
        csv::rows_charged(budget, rows).1 is Ok,
        csv::rows_charged(budget, rows).0.iteration.current_count == budget.iteration.current_count + rows.len(),
        csv::rows_charged(budget, rows).0.table.current_cells == budget.table.current_cells + fields_of(rows),
        csv::rows_charged(budget, rows).0.growth.current_size == budget.growth.current_size + row_bytes(rows),
        csv::rows_charged(budget, rows).0.same_ceilings(budget),
    decreases rows.len(),
{
    if rows.len() > 0 {
        let init = rows.drop_last();
        assert(short_fields(rows[rows.len() - 1], budget.entity.max_length));
        assert forall|i: int| 0 <= i < init.len() implies short_fields(#[trigger] init[i], budget.entity.max_length) by {
            assert(short_fields(rows[i], budget.entity.max_length));
        }
        law_rows_within_the_ceilings_are_accepted(budget, init);
        let before = csv::rows_charged(budget, init).0;
        let stepped = before.spec_step();
        assert(stepped.1 is Ok);
        let added = stepped.0.spec_add_cells(rows.last().len() as int);
        assert(added.1 is Ok);
        lemma_fields_pass(added.0, rows.last());
    }
}

proof fn lemma_refused_fields(budget: SecurityBudget, cells: Seq<Seq<char>>)
    requires
        budget.growth.max_size < usize::MAX,
    ensures
        csv::cells_charged(budget, cells).1 is Ok ==> short_fields(cells, budget.entity.max_length)
            && csv::cells_charged(budget, cells).0.growth.current_size == budget.growth.current_size + bytes_of(cells)
            && (cells.len() > 0 ==> budget.growth.current_size + bytes_of(cells) <= budget.growth.max_size),
        csv::cells_charged(budget, cells).0.same_ceilings(budget),
        csv::cells_charged(budget, cells).0.iteration == budget.iteration,
        csv::cells_charged(budget, cells).0.table == budget.table,
    decreases cells.len(),
{
    if cells.len() > 0 {
        let init = cells.drop_last();
        lemma_refused_fields(budget, init);
        if csv::cells_charged(budget, cells).1 is Ok {
            assert forall|j: int| 0 <= j < cells.len() implies vstd::utf8::encode_utf8(#[trigger] cells[j]).len()
                <= budget.entity.max_length by {
                if j < init.len() {
                    assert(vstd::utf8::encode_utf8(init[j]).len() <= budget.entity.max_length);
                }
            }
        }
    }
}

/// Rows that are accepted are within the ceilings.
pub proof fn law_accepted_rows_are_within_the_ceilings(budget: SecurityBudget, rows: Seq<Seq<Seq<char>>>, i: int)
    requires
        csv::rows_charged(budget, rows).1 is Ok,
        budget.iteration.max_iterations < usize::MAX,
        budget.table.max_cells < usize::MAX,
        budget.growth.max_size < usize::MAX,
        0 <= i < rows.len(),
    ensures
        budget.iteration.current_count + rows.len() <= budget.iteration.max_iterations,
        budget.table.current_cells + fields_of(rows) <= budget.table.max_cells,
        short_fields(rows[i], budget.entity.max_length),
        csv::rows_charged(budget, rows).0.iteration.current_count == budget.iteration.current_count + rows.len(),
        csv::rows_charged(budget, rows).0.table.current_cells == budget.table.current_cells + fields_of(rows),
        csv::rows_charged(budget, rows).0.growth.current_size == budget.growth.current_size + row_bytes(rows),
        csv::rows_charged(budget, rows).0.same_ceilings(budget),
    decreases rows.len(),
{
    let init = rows.drop_last();
    let before = csv::rows_charged(budget, init).0;
    if init.len() > 0 {
        law_accepted_rows_are_within_the_ceilings(
            budget,
            init,
            if i < init.len() {
                i
            } else {
                0
            },
        );
    }
    let stepped = before.spec_step();
    let added = stepped.0.spec_add_cells(rows.last().len() as int);
    lemma_refused_fields(added.0, rows.last());
    assert(row_bytes(rows) == row_bytes(init) + bytes_of(rows.last()));
    assert(fields_of(rows) == fields_of(init) + rows.last().len());
    if init.len() == 0 {
        assert(fields_of(init) == 0 && row_bytes(init) == 0);
        assert(before == budget);
    }
}

/// How many bytes the entries of an archive take once they are unpacked.
pub open spec fn unpacked(entries: Seq<Result<(u64, u64), Seq<char>>>, n: int) -> int
    decreases n,
{
    if n <= 0 {
        0
    } else {
        unpacked(entries, n - 1) + entries[n - 1]->Ok_0.1
    }
}

/// How many bytes the entries of an archive take in it.
pub open spec fn packed(entries: Seq<Result<(u64, u64), Seq<char>>>, n: int) -> int
    decreases n,
{
    if n <= 0 {
        0
    } else {
        packed(entries, n - 1) + entries[n - 1]->Ok_0.0
    }
}

proof fn lemma_sums_grow(entries: Seq<Result<(u64, u64), Seq<char>>>, i: int, n: int)
    requires
        0 <= i <= n,
    ensures
        0 <= unpacked(entries, i) <= unpacked(entries, n),
        0 <= packed(entries, i) <= packed(entries, n),
    decreases n,
{
    if i < n {
        lemma_sums_grow(entries, i, n - 1);
    } else if n > 0 {
        lemma_sums_grow(entries, n - 1, n - 1);
    }
}

proof fn lemma_totals(entries: Seq<Result<(u64, u64), Seq<char>>>, n: int)
    requires
        0 <= n <= entries.len(),
        forall|i: int| 0 <= i < entries.len() ==> (#[trigger] entries[i]) is Ok,
        unpacked(entries, n) <= u64::MAX,
        packed(entries, n) <= u64::MAX,
    ensures
        security::totals(entries, n) == (packed(entries, n) as u64, unpacked(entries, n) as u64),
    decreases n,
{
    if n > 0 {
        lemma_sums_grow(entries, n - 1, n);
        lemma_totals(entries, n - 1);
        assert(entries[n - 1] is Ok);
        lemma_sums_grow(entries, 0, n - 1);
    }
}

#[verifier::spinoff_prover]
#[verifier::rlimit(60)]
proof fn lemma_archive_passes(limits: SecurityLimits, entries: Seq<Result<(u64, u64), Seq<char>>>, i: int)
    requires
        0 <= i <= entries.len(),
        forall|k: int| 0 <= k < entries.len() ==> (#[trigger] entries[k]) is Ok,
        forall|k: int|
            0 <= k < entries.len() && (#[trigger] entries[k])->Ok_0.1 > 0 ==> entries[k]->Ok_0.0 > 0
                && entries[k]->Ok_0.1 <= limits.max_compression_ratio * entries[k]->Ok_0.0,
        unpacked(entries, entries.len() as int) <= limits.max_archive_size,
        unpacked(entries, entries.len() as int) <= u64::MAX,
        packed(entries, entries.len() as int) <= u64::MAX,
        unpacked(entries, entries.len() as int) <= limits.max_compression_ratio * packed(entries, entries.len() as int),
    ensures
        security::archive_verdict_from(limits, entries, i) is Safe,
    decreases entries.len() - i,
{
    let n = entries.len() as int;
    if i < n {
        lemma_sums_grow(entries, i + 1, n);
        lemma_sums_grow(entries, 0, i + 1);
        lemma_totals(entries, i + 1);
        assert(entries[i] is Ok);
        lemma_archive_passes(limits, entries, i + 1);
    } else {
        lemma_sums_grow(entries, 0, n);
        lemma_totals(entries, n);
    }
}

/// An archive is accepted if it has no more entries than configured, all of them can be read, none and not all of them
/// together inflate by more than the accepted ratio, and together they take no more bytes than configured.
pub proof fn law_modest_archives_are_accepted(limits: SecurityLimits, entries: Seq<Result<(u64, u64), Seq<char>>>)
    requires
        entries.len() <= limits.max_files_in_archive,
        forall|k: int| 0 <= k < entries.len() ==> (#[trigger] entries[k]) is Ok,
        forall|k: int|
            0 <= k < entries.len() && (#[trigger] entries[k])->Ok_0.1 > 0 ==> entries[k]->Ok_0.0 > 0
                && entries[k]->Ok_0.1 <= limits.max_compression_ratio * entries[k]->Ok_0.0,
        unpacked(entries, entries.len() as int) <= limits.max_archive_size,
        unpacked(entries, entries.len() as int) <= u64::MAX,
        packed(entries, entries.len() as int) <= u64::MAX,
        unpacked(entries, entries.len() as int) <= limits.max_compression_ratio * packed(entries, entries.len() as int),
    ensures
        security::archive_verdict(limits, entries) is Safe,
{
    lemma_archive_passes(limits, entries, 0);
}

/// A path of names leads down through all of them; a dot and nothing between two slashes change nothing, and two dots
/// take back the last name, or lead out where there is none.
#[verifier::spinoff_prover]
#[verifier::rlimit(60)]
pub proof fn law_paths_lead_where_they_say(stack: Seq<Seq<char>>, path: Seq<Seq<char>>, name: Seq<char>)
    requires
        name.len() > 0,
        name != seq!['.'],
        name != seq!['.', '.'],
    ensures
        (forall|k: int|
            0 <= k < path.len() ==> (#[trigger] path[k]).len() > 0 && path[k] != seq!['.'] && path[k] != seq!['.', '.'])
            ==> security::walk(stack, path) == Some(stack + path),
        security::walk(stack, path.push(seq!['.'])) == security::walk(stack, path),
        security::walk(stack, path.push(Seq::empty())) == security::walk(stack, path),
        security::walk(stack, path.push(name).push(seq!['.', '.'])) == security::walk(stack, path),
        security::walk(Seq::empty(), seq![seq!['.', '.']]) is None,
{
    if forall|k: int|
        0 <= k < path.len() ==> (#[trigger] path[k]).len() > 0 && path[k] != seq!['.'] && path[k] != seq!['.', '.'] {
        lemma_names_lead_down(stack, path);
    }
    assert(path.push(seq!['.']).drop_last() =~= path);
    assert(path.push(Seq::empty()).drop_last() =~= path);
    assert(path.push(name).push(seq!['.', '.']).drop_last() =~= path.push(name));
    assert(path.push(name).drop_last() =~= path);
    assert(name != Seq::<char>::empty());
    let two = seq!['.', '.'];
    assert(two.len() == 2);
    assert(two != Seq::<char>::empty());
    assert(two != seq!['.']) by {
        assert(seq!['.'].len() == 1);
    }
    if let Some(here) = security::walk(stack, path) {
        assert(security::walk(stack, path.push(name)) == Some(here.push(name)));
        assert(here.push(name).drop_last() =~= here);
    }
    let up = seq![two];
    assert(up.drop_last() =~= Seq::empty());
    assert(security::walk(Seq::empty(), up.drop_last()) == Some(Seq::<Seq<char>>::empty()));
}

proof fn lemma_names_lead_down(stack: Seq<Seq<char>>, path: Seq<Seq<char>>)
    requires
        forall|k: int|
            0 <= k < path.len() ==> (#[trigger] path[k]).len() > 0 && path[k] != seq!['.'] && path[k] != seq!['.', '.'],
    ensures
        security::walk(stack, path) == Some(stack + path),
    decreases path.len(),
{
    if path.len() == 0 {
        assert(stack + path =~= stack);
    } else {
        let init = path.drop_last();
        assert(path[path.len() - 1].len() > 0);
        assert forall|k: int| 0 <= k < init.len() implies (#[trigger] init[k]).len() > 0 && init[k] != seq!['.'] && init[k]
            != seq!['.', '.'] by {
            assert(path[k].len() > 0);
        }
        lemma_names_lead_down(stack, init);
        assert(path.last() != Seq::<char>::empty());
        assert((stack + init).push(path.last()) =~= stack + path);
    }
}

/// The name of an entry below a directory resolves to the directory and the name, and a target with a slash before it
/// to the name alone.
#[verifier::spinoff_prover]
#[verifier::rlimit(60)]
pub proof fn law_plain_entries_are_found(base: Seq<Seq<char>>, target: Seq<Seq<char>>)
    requires
        base.len() > 0,
        target.len() > 0,
        forall|k: int|
            0 <= k < base.len() ==> (#[trigger] base[k]).len() > 0 && !base[k].contains('/') && base[k] != seq!['.'] && base[k]
                != seq!['.', '.'],
        forall|k: int|
            0 <= k < target.len() ==> (#[trigger] target[k]).len() > 2 && !target[k].contains('/') && !target[k].contains(
                '\\',
            ) && !target[k].contains(':') && !target[k].contains('\0'),
    ensures
        security::resolved_entry(text::join(base, seq!['/']), text::join(target, seq!['/'])) == Ok::<
            Seq<Seq<char>>,
            PathTraversalError,
        >(base + target),
{
    let b = text::join(base, seq!['/']);
    let t = text::join(target, seq!['/']);
    assert forall|k: int| 0 <= k < target.len() implies !(#[trigger] target[k]).contains('\\') by {}
    assert forall|k: int| 0 <= k < target.len() implies !(#[trigger] target[k]).contains('\0') by {}
    assert forall|k: int| 0 <= k < target.len() implies !(#[trigger] target[k]).contains(':') by {}
    lemma_joined_without(target, '\\');
    lemma_joined_without(target, '\0');
    lemma_joined_without(target, ':');
    lemma_joined_starts(target);
    assert forall|k: int| 0 <= k < t.len() implies t[k] != '\\' by {
        assert(t.contains(t[k]));
    }
    assert(text::replaced(t, '\\', '/') =~= t);
    assert(target[0].len() > 2);
    assert(t[0] == target[0][0] && t[1] == target[0][1]);
    assert(!target[0].contains('/'));
    assert(target[0].contains(target[0][0]));
    assert(t.contains(t[1]));
    assert(!security::has_drive_or_unc_prefix(t));
    assert forall|k: int| 0 <= k < base.len() implies !(#[trigger] base[k]).contains('/') by {}
    assert forall|k: int| 0 <= k < target.len() implies !(#[trigger] target[k]).contains('/') by {}
    text::lemma_split_of_join(base, '/');
    text::lemma_split_of_join(target, '/');
    let path = base + target;
    assert(security::named_components(b, t) == path);
    assert forall|k: int| 0 <= k < path.len() implies (#[trigger] path[k]).len() > 0 && path[k] != seq!['.'] && path[k]
        != seq!['.', '.'] by {
        if k < base.len() {
            assert(path[k] == base[k]);
        } else {
            assert(path[k] == target[k - base.len()]);
            assert(seq!['.', '.'].len() == 2 && seq!['.'].len() == 1);
        }
    }
    lemma_names_lead_down(Seq::empty(), path);
    assert(Seq::empty() + path =~= path);
}

proof fn lemma_joined_starts(parts: Seq<Seq<char>>)
    requires
        parts.len() > 0,
        parts[0].len() > 2,
    ensures
        text::join(parts, seq!['/']).len() > 2,
        text::join(parts, seq!['/'])[0] == parts[0][0],
        text::join(parts, seq!['/'])[1] == parts[0][1],
    decreases parts.len(),
{
    if parts.len() > 1 {
        lemma_joined_starts(parts.drop_last());
    }
}

proof fn lemma_joined_without(parts: Seq<Seq<char>>, c: char)
    requires
        c != '/',
        forall|k: int| 0 <= k < parts.len() ==> !(#[trigger] parts[k]).contains(c),
    ensures
        !text::join(parts, seq!['/']).contains(c),
    decreases parts.len(),
{
    if parts.len() == 1 {
        assert(!parts[0].contains(c));
    } else if parts.len() > 1 {
        let init = parts.drop_last();
        assert forall|k: int| 0 <= k < init.len() implies !(#[trigger] init[k]).contains(c) by {
            assert(!parts[k].contains(c));
        }
        lemma_joined_without(init, c);
        assert(!parts[parts.len() - 1].contains(c));
        let head = text::join(init, seq!['/']);
        let all = text::join(parts, seq!['/']);
        if all.contains(c) {
            let k = choose|k: int| 0 <= k < all.len() && all[k] == c;
            if k < head.len() {
                assert(head[k] == c);
            } else if k > head.len() {
                assert(parts.last()[k - head.len() - 1] == c);
            }
        }
    }
}

} // verus!
