//! A written record reads back as itself.
use crate::gaf::{
    line_body, lines_fault, lines_of, or_else, records_text,
    fields_fault, holds_fields, keys_unique, line_fault, mapq_text, mapq_value, number_value,
    orientations, path_text, path_value, record_text, star, step_text, step_value, step_views,
    steps_value, tab_int, tag_key, tags_fault, tags_text, GafRecord, GafStep, OptField, StepModel,
};
use crate::text::{
    chunks, index_of, int_text, int_value, is_digit, lemma_index_of,
    lemma_int_text_int_value, lemma_int_text_value, lemma_split_len, split,
};
use vstd::prelude::*;

verus! {

/// `fs` joined with `c` between neighbours.
pub open spec fn join(fs: Seq<Seq<char>>, c: char) -> Seq<char>
    decreases fs.len(),
{
    if fs.len() <= 1 {
        if fs.len() == 0 {
            Seq::empty()
        } else {
            fs[0]
        }
    } else {
        join(fs.drop_last(), c) + seq![c] + fs.last()
    }
}

proof fn lemma_split_len1(x: Seq<char>, c: char)
    requires
        !x.contains(c),
    ensures
        split(x, c) == seq![x],
    decreases x.len(),
{
    if x.len() > 0 {
        assert(!x.drop_last().contains(c)) by {
            if x.drop_last().contains(c) {
                let i = choose|i: int| 0 <= i < x.drop_last().len() && x.drop_last()[i] == c;
                assert(x[i] == c);
            }
        }
        lemma_split_len1(x.drop_last(), c);
        if x.last() == c {
            assert(x[x.len() - 1] == c);
            assert(x.contains(c));
        }
        assert(x.drop_last().push(x.last()) =~= x);
        assert(seq![x.drop_last()].update(0, x.drop_last().push(x.last())) =~= seq![x]);
    } else {
        assert(x =~= Seq::<char>::empty());
    }
}

proof fn lemma_split_concat(x: Seq<char>, y: Seq<char>, c: char)
    ensures
        split(x + seq![c] + y, c) == split(x, c) + split(y, c),
    decreases y.len(),
{
    crate::text::lemma_split_len(x, c);
    let z = x + seq![c] + y;
    if y.len() == 0 {
        assert(z.drop_last() =~= x);
        assert(z.last() == c);
        assert(split(y, c) =~= seq![Seq::<char>::empty()]);
    } else {
        assert(z.drop_last() =~= x + seq![c] + y.drop_last());
        assert(z.last() == y.last());
        lemma_split_concat(x, y.drop_last(), c);
        crate::text::lemma_split_len(y.drop_last(), c);
        let a = split(x, c);
        let b = split(y.drop_last(), c);
        if y.last() == c {
            assert((a + b).push(Seq::empty()) =~= a + b.push(Seq::empty()));
        } else {
            assert((a + b).update((a + b).len() - 1, (a + b).last().push(y.last())) =~= a + b.update(
                b.len() - 1,
                b.last().push(y.last()),
            ));
        }
    }
}

/// No piece of `fs` holds `c`.
pub open spec fn free_of(fs: Seq<Seq<char>>, c: char) -> bool {
    forall|i: int| 0 <= i < fs.len() ==> !(#[trigger] fs[i]).contains(c)
}

proof fn lemma_split_join(fs: Seq<Seq<char>>, c: char)
    requires
        fs.len() >= 1,
        free_of(fs, c),
    ensures
        split(join(fs, c), c) == fs,
    decreases fs.len(),
{
    if fs.len() == 1 {
        lemma_split_len1(fs[0], c);
        assert(seq![fs[0]] =~= fs);
    } else {
        let init = fs.drop_last();
        assert(free_of(init, c)) by {
            assert forall|i: int| 0 <= i < init.len() implies !(#[trigger] init[i]).contains(c) by {
                assert(init[i] == fs[i]);
            }
        }
        lemma_split_join(init, c);
        lemma_split_concat(join(init, c), fs.last(), c);
        assert(fs[fs.len() - 1] == fs.last());
        assert(!fs.last().contains(c));
        lemma_split_len1(fs.last(), c);
        assert(init + seq![fs.last()] =~= fs);
    }
}

} // verus!

verus! {

// ---------------------------------------------------------------------------
// the fields of a written line

/// A tag as written: `key:type:value`.
pub open spec fn tag_piece(f: OptField) -> Seq<char> {
    f.key@ + seq![':'] + f.typ@ + seq![':'] + f.value@
}

/// The fields of the line that writes `rec`, whose path text is `p`.
pub open spec fn record_fields(rec: GafRecord, p: Seq<char>) -> Seq<Seq<char>> {
    seq![
        rec.query_name@,
        int_text(rec.query_length as int),
        int_text(rec.query_start as int),
        int_text(rec.query_end as int),
        seq![rec.strand],
        p,
        int_text(rec.path_length as int),
        int_text(rec.path_start as int),
        int_text(rec.path_end as int),
        int_text(rec.matches as int),
        int_text(rec.block_length as int),
        mapq_text(rec.mapq),
    ] + rec.opt_fields@.map_values(|f: OptField| tag_piece(f))
}

proof fn lemma_join_tags(fixed: Seq<Seq<char>>, opts: Seq<OptField>)
    requires
        fixed.len() >= 1,
    ensures
        join(fixed + opts.map_values(|f: OptField| tag_piece(f)), '\t') == join(fixed, '\t')
            + tags_text(opts),
    decreases opts.len(),
{
    let all = fixed + opts.map_values(|f: OptField| tag_piece(f));
    if opts.len() == 0 {
        assert(all =~= fixed);
        assert(join(fixed, '\t') + tags_text(opts) =~= join(fixed, '\t'));
    } else {
        lemma_join_tags(fixed, opts.drop_last());
        assert(all.drop_last() =~= fixed + opts.drop_last().map_values(|f: OptField| tag_piece(f)));
        assert(all.last() == tag_piece(opts.last()));
        assert(join(all, '\t') =~= join(fixed, '\t') + tags_text(opts));
    }
}

proof fn lemma_join_push(fs: Seq<Seq<char>>, x: Seq<char>)
    requires
        fs.len() >= 1,
    ensures
        join(fs.push(x), '\t') == join(fs, '\t') + seq!['\t'] + x,
{
    assert(fs.push(x).drop_last() =~= fs);
}

#[verifier::rlimit(100)]
proof fn lemma_record_line(rec: GafRecord, p: Seq<char>)
    requires
        rec.query_name@.len() > 0,
        rec.path@.len() > 0,
        path_text(step_views(rec.path@)) == Ok::<Seq<char>, crate::gaf::GafError>(p),
    ensures
        record_text(rec) == Ok::<Seq<char>, crate::gaf::GafError>(
            join(record_fields(rec, p), '\t').push('\n'),
        ),
{
    let f0 = seq![rec.query_name@];
    let t0 = rec.query_name@;
    assert(join(f0, '\t') == t0);
    let f1 = f0.push(int_text(rec.query_length as int));
    let t1 = t0 + tab_int(rec.query_length);
    lemma_join_push(f0, int_text(rec.query_length as int));
    assert(join(f1, '\t') =~= t1);
    let f2 = f1.push(int_text(rec.query_start as int));
    let t2 = t1 + tab_int(rec.query_start);
    lemma_join_push(f1, int_text(rec.query_start as int));
    assert(join(f2, '\t') =~= t2);
    let f3 = f2.push(int_text(rec.query_end as int));
    let t3 = t2 + tab_int(rec.query_end);
    lemma_join_push(f2, int_text(rec.query_end as int));
    assert(join(f3, '\t') =~= t3);
    let f4 = f3.push(seq![rec.strand]);
    let t4 = t3 + seq!['\t', rec.strand];
    lemma_join_push(f3, seq![rec.strand]);
    assert(join(f4, '\t') =~= t4);
    let f5 = f4.push(p);
    let t5 = t4 + seq!['\t'] + p;
    lemma_join_push(f4, p);
    assert(join(f5, '\t') =~= t5);
    let f6 = f5.push(int_text(rec.path_length as int));
    let t6 = t5 + tab_int(rec.path_length);
    lemma_join_push(f5, int_text(rec.path_length as int));
    assert(join(f6, '\t') =~= t6);
    let f7 = f6.push(int_text(rec.path_start as int));
    let t7 = t6 + tab_int(rec.path_start);
    lemma_join_push(f6, int_text(rec.path_start as int));
    assert(join(f7, '\t') =~= t7);
    let f8 = f7.push(int_text(rec.path_end as int));
    let t8 = t7 + tab_int(rec.path_end);
    lemma_join_push(f7, int_text(rec.path_end as int));
    assert(join(f8, '\t') =~= t8);
    let f9 = f8.push(int_text(rec.matches as int));
    let t9 = t8 + tab_int(rec.matches);
    lemma_join_push(f8, int_text(rec.matches as int));
    assert(join(f9, '\t') =~= t9);
    let f10 = f9.push(int_text(rec.block_length as int));
    let t10 = t9 + tab_int(rec.block_length);
    lemma_join_push(f9, int_text(rec.block_length as int));
    assert(join(f10, '\t') =~= t10);
    let f11 = f10.push(mapq_text(rec.mapq));
    let t11 = t10 + seq!['\t'] + mapq_text(rec.mapq);
    lemma_join_push(f10, mapq_text(rec.mapq));
    assert(join(f11, '\t') =~= t11);
    lemma_join_tags(f11, rec.opt_fields@);
    assert(record_fields(rec, p) =~= f11 + rec.opt_fields@.map_values(|f: OptField| tag_piece(f)));
    let t = record_text(rec)->Ok_0;
    assert(t =~= t11 + tags_text(rec.opt_fields@) + seq!['\n']);
    assert(t =~= join(record_fields(rec, p), '\t').push('\n'));
}

} // verus!

verus! {

// ---------------------------------------------------------------------------
// the path field

/// A name that an oriented step carries unchanged: no tab, orientation
/// character or colon.
pub open spec fn free_name(n: Seq<char>) -> bool {
    &&& !n.contains('\t')
    &&& !n.contains('<')
    &&& !n.contains('>')
    &&& !n.contains(':')
}

/// An oriented step that its text carries unchanged: a node, or an
/// interval of a stable path whose start is not below zero.
pub open spec fn oriented_model(m: StepModel) -> bool {
    &&& free_name(m.name)
    &&& ((!m.is_stable && !m.is_interval && m.start is None && m.end is None) || (m.is_stable
        && m.is_interval && (m.start matches Some(a) && a >= 0) && m.end is Some))
}

/// A whole stable path that its text carries unchanged: not reversed, no
/// tab, and not starting with an orientation character.
pub open spec fn whole_model(m: StepModel) -> bool {
    &&& m.is_stable
    &&& !m.is_interval
    &&& !m.is_reverse
    &&& m.start is None
    &&& m.end is None
    &&& !m.name.contains('\t')
    &&& !(m.name.len() > 0 && orientations().contains(m.name[0]))
}

/// A path that its text carries unchanged: oriented steps only, or one
/// whole stable path.
pub open spec fn path_safe(ms: Seq<StepModel>) -> bool {
    &&& ms.len() > 0
    &&& ((forall|i: int| 0 <= i < ms.len() ==> oriented_model(#[trigger] ms[i])) || (ms.len() == 1
        && whole_model(ms[0])))
}

proof fn lemma_first_index(x: Seq<char>, y: Seq<char>, c: char)
    requires
        !x.contains(c),
    ensures
        index_of(x + seq![c] + y, c) == Some(x.len()),
{
    let s = x + seq![c] + y;
    lemma_index_of(s, c);
    assert(s[x.len() as int] == c);
    match index_of(s, c) {
        Some(i) => {
            if i < x.len() {
                assert(s[i as int] == x[i as int]);
                assert(x.contains(c));
            }
        },
        None => {},
    }
}

proof fn lemma_no_char_in_int_text(v: int, c: char)
    requires
        c != '-',
        !is_digit(c),
    ensures
        !int_text(v).contains(c),
{
    lemma_int_text_int_value(v);
    if int_text(v).contains(c) {
        let i = choose|i: int| 0 <= i < int_text(v).len() && int_text(v)[i] == c;
        assert(is_digit(int_text(v)[i]) || int_text(v)[i] == '-');
    }
}

proof fn lemma_interval_step(m: StepModel)
    requires
        free_name(m.name),
        m.is_stable,
        m.is_interval,
        m.start matches Some(a) && a >= 0,
        m.end is Some,
    ensures
        step_text(m) matches Ok(t) && t.len() > 0 && orientations().contains(t[0]) && chunks(
            t,
            orientations(),
        ) == seq![t] && step_value(t) == Ok::<StepModel, crate::gaf::GafError>(m) && !t.contains(
            '\t',
        ),
{
    let o = if m.is_reverse {
        '<'
    } else {
        '>'
    };
    let a = m.start->Some_0;
    let b = m.end->Some_0;
    let ta = int_text(a as int);
    let tb = int_text(b as int);
    let t = seq![o] + m.name + seq![':'] + ta + seq!['-'] + tb;
    assert(step_text(m) == Ok::<Seq<char>, crate::gaf::GafError>(t));
    lemma_int_text_int_value(a as int);
    lemma_int_text_int_value(b as int);
    lemma_no_char_in_int_text(a as int, '<');
    lemma_no_char_in_int_text(a as int, '>');
    lemma_no_char_in_int_text(b as int, '<');
    lemma_no_char_in_int_text(b as int, '>');
    lemma_no_char_in_int_text(a as int, '\t');
    lemma_no_char_in_int_text(b as int, '\t');
    assert(orientations()[0] == '<' && orientations()[1] == '>');
    assert forall|i: int| 1 <= i < t.len() implies !orientations().contains(#[trigger] t[i]) by {
        if orientations().contains(t[i]) {
            let k = choose|k: int| 0 <= k < orientations().len() && orientations()[k] == t[i];
            let nl = m.name.len() as int;
            if i <= nl {
                assert(t[i] == m.name[i - 1]);
                assert(m.name.contains(t[i]));
            } else if i == nl + 1 {
                assert(t[i] == ':');
            } else if i < nl + 2 + ta.len() {
                assert(t[i] == ta[i - nl - 2]);
                assert(ta.contains(t[i]));
            } else if i == nl + 2 + ta.len() {
                assert(t[i] == '-');
            } else {
                assert(t[i] == tb[i - nl - 3 - ta.len()]);
                assert(tb.contains(t[i]));
            }
        }
    }
    assert(orientations().contains(o));
    lemma_chunks_single(t, orientations());
    let body = t.drop_first();
    assert(body =~= m.name + seq![':'] + (ta + seq!['-'] + tb));
    lemma_first_index(m.name, ta + seq!['-'] + tb, ':');
    let range = body.skip((m.name.len() + 1) as int);
    assert(range =~= ta + seq!['-'] + tb);
    // the start is not below zero: its text holds no minus sign
    assert(!ta.contains('-')) by {
        lemma_int_text_int_value(a as int);
        if ta.contains('-') {
            let i = choose|i: int| 0 <= i < ta.len() && ta[i] == '-';
            assert(ta == crate::text::nat_text(a as nat));
            crate::text::lemma_nat_text_digits(a as nat);
            assert(is_digit(ta[i]));
        }
    }
    lemma_first_index(ta, tb, '-');
    assert(range.take(ta.len() as int) =~= ta);
    assert(range.skip((ta.len() + 1) as int) =~= tb);
    assert(body.take(m.name.len() as int) =~= m.name);
    lemma_int_text_value(a);
    lemma_int_text_value(b);
    assert(step_value(t) == Ok::<StepModel, crate::gaf::GafError>(m));
    if t.contains('\t') {
        let i = choose|i: int| 0 <= i < t.len() && t[i] == '\t';
        let nl = m.name.len() as int;
        if 1 <= i <= nl {
            assert(t[i] == m.name[i - 1]);
            assert(m.name.contains('\t'));
        } else if nl + 2 <= i < nl + 2 + ta.len() {
            assert(t[i] == ta[i - nl - 2]);
            assert(ta.contains('\t'));
        } else if i > nl + 2 + ta.len() {
            assert(t[i] == tb[i - nl - 3 - ta.len()]);
            assert(tb.contains('\t'));
        }
    }
}

proof fn lemma_chunks_nonempty(y: Seq<char>, d: Seq<char>)
    requires
        y.len() > 0,
        d.contains(y[0]),
    ensures
        chunks(y, d).len() > 0,
    decreases y.len(),
{
    if y.len() > 1 {
        assert(y.drop_last()[0] == y[0]);
        lemma_chunks_nonempty(y.drop_last(), d);
    } else {
        assert(y.drop_last().len() == 0);
        assert(y.last() == y[0]);
    }
}

proof fn lemma_chunks_concat(x: Seq<char>, y: Seq<char>, d: Seq<char>)
    requires
        y.len() > 0,
        d.contains(y[0]),
    ensures
        chunks(x + y, d) == chunks(x, d) + chunks(y, d),
    decreases y.len(),
{
    if y.len() == 1 {
        assert((x + y).drop_last() =~= x);
        assert((x + y).last() == y[0]);
        assert(y.drop_last() =~= Seq::<char>::empty());
        assert(y.last() == y[0]);
        assert(chunks(y, d) =~= seq![seq![y[0]]]);
        assert(chunks(x, d).push(seq![y[0]]) =~= chunks(x, d) + seq![seq![y[0]]]);
    } else {
        let y2 = y.drop_last();
        assert(y2[0] == y[0]);
        lemma_chunks_concat(x, y2, d);
        lemma_chunks_nonempty(y2, d);
        assert((x + y).drop_last() =~= x + y2);
        assert((x + y).last() == y.last());
        let a = chunks(x, d);
        let b = chunks(y2, d);
        if d.contains(y.last()) {
            assert((a + b).push(seq![y.last()]) =~= a + b.push(seq![y.last()]));
        } else {
            assert((a + b).update((a + b).len() - 1, (a + b).last().push(y.last())) =~= a
                + b.update(b.len() - 1, b.last().push(y.last())));
        }
    }
}

proof fn lemma_chunks_single(y: Seq<char>, d: Seq<char>)
    requires
        y.len() > 0,
        d.contains(y[0]),
        forall|i: int| 1 <= i < y.len() ==> !d.contains(#[trigger] y[i]),
    ensures
        chunks(y, d) == seq![y],
    decreases y.len(),
{
    if y.len() == 1 {
        assert(y.drop_last() =~= Seq::<char>::empty());
        assert(y.last() == y[0]);
        assert(chunks(y.drop_last(), d) == Seq::<Seq<char>>::empty());
        assert(chunks(y, d) == Seq::<Seq<char>>::empty().push(seq![y.last()]));
        assert(seq![y[0]] =~= y);
        assert(Seq::<Seq<char>>::empty().push(seq![y.last()]) =~= seq![y]);
    } else {
        let y2 = y.drop_last();
        assert(y2[0] == y[0]);
        assert forall|i: int| 1 <= i < y2.len() implies !d.contains(#[trigger] y2[i]) by {
            assert(y2[i] == y[i]);
        }
        lemma_chunks_single(y2, d);
        assert(y.last() == y[y.len() - 1]);
        assert(!d.contains(y[y.len() - 1]));
        assert(y2.push(y.last()) =~= y);
        assert(seq![y2].update(0, y2.push(y.last())) =~= seq![y]);
    }
}

proof fn lemma_step_text(m: StepModel)
    requires
        oriented_model(m),
    ensures
        step_text(m) matches Ok(t) && t.len() > 0 && orientations().contains(t[0]) && chunks(
            t,
            orientations(),
        ) == seq![t] && step_value(t) == Ok::<StepModel, crate::gaf::GafError>(m) && !t.contains(
            '\t',
        ),
{
    if m.is_interval {
        lemma_interval_step(m);
        return;
    }
    let o = if m.is_reverse {
        '<'
    } else {
        '>'
    };
    let t = seq![o] + m.name;
    assert(step_text(m) == Ok::<Seq<char>, crate::gaf::GafError>(t));
    assert(t[0] == o);
    assert(orientations()[0] == '<' && orientations()[1] == '>');
    assert(orientations().contains(o));
    assert forall|i: int| 1 <= i < t.len() implies !orientations().contains(#[trigger] t[i]) by {
        assert(t[i] == m.name[i - 1]);
        if orientations().contains(t[i]) {
            let k = choose|k: int| 0 <= k < orientations().len() && orientations()[k] == t[i];
            assert(m.name.contains(t[i]));
        }
    }
    lemma_chunks_single(t, orientations());
    assert(t.drop_first() =~= m.name);
    lemma_index_of(m.name, ':');
    if index_of(m.name, ':') is Some {
        let i = index_of(m.name, ':')->Some_0;
        assert(m.name.contains(':'));
    }
    assert(step_value(t) == Ok::<StepModel, crate::gaf::GafError>(m));
    if t.contains('\t') {
        let i = choose|i: int| 0 <= i < t.len() && t[i] == '\t';
        if i > 0 {
            assert(t[i] == m.name[i - 1]);
            assert(m.name.contains('\t'));
        }
    }
}

/// The texts of the steps `ms`.
pub open spec fn step_texts(ms: Seq<StepModel>) -> Seq<Seq<char>> {
    ms.map_values(|m: StepModel| step_text(m)->Ok_0)
}

proof fn lemma_path_text(ms: Seq<StepModel>)
    requires
        forall|i: int| 0 <= i < ms.len() ==> oriented_model(#[trigger] ms[i]),
    ensures
        path_text(ms) is Ok,
        chunks(path_text(ms)->Ok_0, orientations()) == step_texts(ms),
        !path_text(ms)->Ok_0.contains('\t'),
        ms.len() > 0 ==> path_text(ms)->Ok_0.len() > 0 && path_text(ms)->Ok_0[0] == step_text(
            ms[0],
        )->Ok_0[0],
    decreases ms.len(),
{
    if ms.len() == 0 {
        assert(step_texts(ms) =~= Seq::<Seq<char>>::empty());
    } else {
        let init = ms.drop_last();
        assert forall|i: int| 0 <= i < init.len() implies oriented_model(#[trigger] init[i]) by {
            assert(init[i] == ms[i]);
        }
        lemma_path_text(init);
        assert(ms.last() == ms[ms.len() - 1]);
        lemma_step_text(ms.last());
        let a = path_text(init)->Ok_0;
        let t = step_text(ms.last())->Ok_0;
        assert(path_text(ms) == Ok::<Seq<char>, crate::gaf::GafError>(a + t));
        lemma_chunks_concat(a, t, orientations());
        assert(step_texts(ms) =~= step_texts(init).push(t));
        assert(chunks(a + t, orientations()) =~= step_texts(ms));
        if (a + t).contains('\t') {
            let i = choose|i: int| 0 <= i < (a + t).len() && (a + t)[i] == '\t';
            if i < a.len() {
                assert(a[i] == '\t');
                assert(a.contains('\t'));
            } else {
                assert(t[i - a.len()] == '\t');
                assert(t.contains('\t'));
            }
        }
        if init.len() > 0 {
            assert(init[0] == ms[0]);
        } else {
            assert(a.len() == 0);
            assert((a + t)[0] == t[0]);
        }
    }
}

proof fn lemma_steps_value(ms: Seq<StepModel>)
    requires
        forall|i: int| 0 <= i < ms.len() ==> oriented_model(#[trigger] ms[i]),
    ensures
        steps_value(step_texts(ms)) == Ok::<Seq<StepModel>, crate::gaf::GafError>(ms),
    decreases ms.len(),
{
    if ms.len() > 0 {
        let tail = ms.drop_first();
        assert forall|i: int| 0 <= i < tail.len() implies oriented_model(#[trigger] tail[i]) by {
            assert(tail[i] == ms[i + 1]);
        }
        lemma_steps_value(tail);
        lemma_step_text(ms[0]);
        assert(step_texts(ms).drop_first() =~= step_texts(tail));
        assert(step_texts(ms)[0] == step_text(ms[0])->Ok_0);
        assert(seq![ms[0]] + tail =~= ms);
    } else {
        assert(step_texts(ms) =~= Seq::<Seq<char>>::empty());
        assert(ms =~= Seq::<StepModel>::empty());
    }
}

} // verus!

verus! {

// ---------------------------------------------------------------------------
// numbers and tags

proof fn lemma_int_field(v: int)
    ensures
        int_value(int_text(v)) == Some(v),
        int_text(v) != star(),
        !int_text(v).contains('\t'),
{
    lemma_int_text_int_value(v);
    let t = int_text(v);
    if t == star() {
        assert(t[0] == '*');
    }
    if t.contains('\t') {
        let i = choose|i: int| 0 <= i < t.len() && t[i] == '\t';
        assert(is_digit(t[i]) || t[i] == '-');
    }
}

proof fn lemma_number_field(v: i64)
    ensures
        number_value(int_text(v as int)) == Some(v),
        !int_text(v as int).contains('\t'),
{
    lemma_int_field(v as int);
    lemma_int_text_value(v);
}

/// A tag that its written form carries: a two-character key, a
/// one-character type, no tab anywhere.
pub open spec fn tag_safe(f: OptField) -> bool {
    &&& f.key@.len() == 2
    &&& f.typ@.len() == 1
    &&& !f.key@.contains('\t')
    &&& !f.typ@.contains('\t')
    &&& !f.value@.contains('\t')
}

proof fn lemma_tag_piece(f: OptField)
    requires
        tag_safe(f),
    ensures
        tag_piece(f).len() >= 5,
        tag_key(tag_piece(f)) == f.key@,
        tag_piece(f).take(2) == f.key@,
        tag_piece(f).subrange(3, 4) == f.typ@,
        tag_piece(f).skip(5) == f.value@,
        !tag_piece(f).contains('\t'),
{
    let t = tag_piece(f);
    assert(t.take(2) =~= f.key@);
    assert(t.subrange(3, 4) =~= f.typ@);
    assert(t.skip(5) =~= f.value@);
    if t.contains('\t') {
        let i = choose|i: int| 0 <= i < t.len() && t[i] == '\t';
        if i < 2 {
            assert(f.key@[i] == '\t');
            assert(f.key@.contains('\t'));
        } else if i == 3 {
            assert(f.typ@[0] == '\t');
            assert(f.typ@.contains('\t'));
        } else if i >= 5 {
            assert(f.value@[i - 5] == '\t');
            assert(f.value@.contains('\t'));
        }
    }
}

proof fn lemma_tags_fault(opts: Seq<OptField>)
    requires
        keys_unique(opts),
        forall|i: int| 0 <= i < opts.len() ==> tag_safe(#[trigger] opts[i]),
    ensures
        tags_fault(opts.map_values(|f: OptField| tag_piece(f))) is None,
    decreases opts.len(),
{
    let ts = opts.map_values(|f: OptField| tag_piece(f));
    if opts.len() > 0 {
        let init = opts.drop_last();
        assert(keys_unique(init)) by {
            assert forall|i: int, j: int| 0 <= i < j < init.len() implies (#[trigger] init[i]).key@
                != (#[trigger] init[j]).key@ by {
                assert(init[i] == opts[i] && init[j] == opts[j]);
            }
        }
        assert forall|i: int| 0 <= i < init.len() implies tag_safe(#[trigger] init[i]) by {
            assert(init[i] == opts[i]);
        }
        lemma_tags_fault(init);
        assert(ts.drop_last() =~= init.map_values(|f: OptField| tag_piece(f)));
        let last = opts[opts.len() - 1];
        lemma_tag_piece(last);
        assert(ts.last() == tag_piece(last));
        assert forall|k: int| 0 <= k < ts.len() - 1 implies tag_key(#[trigger] ts[k]) != tag_key(
            ts.last(),
        ) by {
            lemma_tag_piece(opts[k]);
            assert(ts[k] == tag_piece(opts[k]));
        }
    }
}

// ---------------------------------------------------------------------------
// the law

proof fn lemma_path_field(views: Seq<StepModel>)
    requires
        path_safe(views),
    ensures
        path_text(views) is Ok,
        !path_text(views)->Ok_0.contains('\t'),
        path_value(path_text(views)->Ok_0) == Ok::<Seq<StepModel>, crate::gaf::GafError>(views),
{
    if forall|i: int| 0 <= i < views.len() ==> oriented_model(#[trigger] views[i]) {
        lemma_path_text(views);
        lemma_steps_value(views);
        lemma_step_text(views[0]);
    } else {
        let m = views[0];
        assert(views.drop_last() =~= Seq::<StepModel>::empty());
        assert(step_text(m) == Ok::<Seq<char>, crate::gaf::GafError>(Seq::<char>::empty() + m.name));
        assert(Seq::<char>::empty() + m.name =~= m.name);
        assert(views.last() == m);
        assert(path_text(views.drop_last()) == Ok::<Seq<char>, crate::gaf::GafError>(
            Seq::<char>::empty(),
        ));
        assert(path_text(views) == Ok::<Seq<char>, crate::gaf::GafError>(m.name));
        assert(seq![
            StepModel {
                name: m.name,
                is_reverse: false,
                is_stable: true,
                is_interval: false,
                start: None,
                end: None,
            },
        ] =~= views);
    }
}

/// A record that its line carries unchanged: a name, a path of oriented
/// steps or one whole stable path (see `path_safe`),
/// a mapping quality from 0 to 255 (the missing one is written as 255), tags of
/// a two-character key and a one-character type with unique keys, and no
/// tab inside a field.
pub open spec fn text_safe(rec: GafRecord) -> bool {
    &&& rec.query_name@.len() > 0
    &&& !rec.query_name@.contains('\t')
    &&& rec.strand != '\t'
    &&& path_safe(step_views(rec.path@))
    &&& 0 <= rec.mapq <= 255
    &&& keys_unique(rec.opt_fields@)
    &&& forall|i: int| 0 <= i < rec.opt_fields@.len() ==> tag_safe(#[trigger] rec.opt_fields@[i])
}

/// Writing a record and reading the line back gives the same record:
/// the line has no fault, and every field of the record is the one that
/// reading the line yields.
pub proof fn lemma_written_record_reads_back(rec: GafRecord)
    requires
        text_safe(rec),
    ensures
        record_text(rec) is Ok,
        record_text(rec)->Ok_0.len() > 0,
        record_text(rec)->Ok_0.last() == '\n',
        line_fault(record_text(rec)->Ok_0.drop_last()) is None,
        holds_fields(rec, split(record_text(rec)->Ok_0.drop_last(), '\t')),
{
    let views = step_views(rec.path@);
    lemma_path_field(views);
    let p = path_text(views)->Ok_0;
    lemma_record_line(rec, p);
    let fields = record_fields(rec, p);
    let line = join(fields, '\t');
    assert(record_text(rec)->Ok_0.drop_last() =~= line);
    lemma_number_field(rec.query_length);
    lemma_number_field(rec.query_start);
    lemma_number_field(rec.query_end);
    lemma_number_field(rec.path_length);
    lemma_number_field(rec.path_start);
    lemma_number_field(rec.path_end);
    lemma_number_field(rec.matches);
    lemma_number_field(rec.block_length);
    lemma_int_field(rec.mapq as int);
    assert(mapq_text(rec.mapq) == int_text(rec.mapq as int));
    assert(mapq_value(mapq_text(rec.mapq)) == Some(rec.mapq));
    let tags = rec.opt_fields@.map_values(|f: OptField| tag_piece(f));
    assert(fields.skip(12) =~= tags);
    assert forall|i: int| 0 <= i < rec.opt_fields@.len() implies !(#[trigger] tags[i]).contains('\t')
        && tags[i].take(2) == rec.opt_fields@[i].key@ && tags[i].subrange(3, 4)
        == rec.opt_fields@[i].typ@ && tags[i].skip(5) == rec.opt_fields@[i].value@ by {
        lemma_tag_piece(rec.opt_fields@[i]);
    }
    assert(!seq![rec.strand].contains('\t')) by {
        if seq![rec.strand].contains('\t') {
            let i = choose|i: int| 0 <= i < 1 && seq![rec.strand][i] == '\t';
        }
    }
    assert(free_of(fields, '\t')) by {
        assert forall|i: int| 0 <= i < fields.len() implies !(#[trigger] fields[i]).contains('\t') by {
            if i >= 12 {
                assert(fields[i] == tags[i - 12]);
            }
        }
    }
    lemma_split_join(fields, '\t');
    lemma_tags_fault(rec.opt_fields@);
    assert(rec.path@.map_values(|s: GafStep| s@) == views);
    assert(fields_fault(fields) is None);
    assert forall|i: int| 0 <= i < rec.opt_fields@.len() implies {
        let t = #[trigger] fields[12 + i];
        &&& rec.opt_fields@[i].key@ == t.take(2)
        &&& rec.opt_fields@[i].typ@ == t.subrange(3, 4)
        &&& rec.opt_fields@[i].value@ == t.skip(5)
    } by {
        assert(fields[12 + i] == tags[i]);
    }
}

} // verus!

verus! {

// ---------------------------------------------------------------------------
// whole files

/// The line that writes `rec`, without its newline.
pub open spec fn record_line(rec: GafRecord) -> Seq<char> {
    record_text(rec)->Ok_0.drop_last()
}

/// A record that a file carries unchanged: text-safe, and its line holds
/// no newline or carriage return.
pub open spec fn file_safe(rec: GafRecord) -> bool {
    &&& text_safe(rec)
    &&& !record_line(rec).contains('\n')
    &&& !record_line(rec).contains('\r')
}

proof fn lemma_record_text_shape(rec: GafRecord)
    requires
        text_safe(rec),
    ensures
        record_text(rec) is Ok,
        record_text(rec)->Ok_0.len() > 0,
        record_text(rec)->Ok_0.last() == '\n',
        record_text(rec)->Ok_0 == record_line(rec).push('\n'),
{
    lemma_written_record_reads_back(rec);
    assert(record_text(rec)->Ok_0 =~= record_line(rec).push('\n'));
}

proof fn lemma_records_split(rs: Seq<GafRecord>)
    requires
        forall|i: int| 0 <= i < rs.len() ==> file_safe(#[trigger] rs[i]),
    ensures
        records_text(rs) is Ok,
        split(records_text(rs)->Ok_0, '\n') == rs.map_values(|r: GafRecord| record_line(r)).push(
            Seq::<char>::empty(),
        ),
    decreases rs.len(),
{
    let lines = rs.map_values(|r: GafRecord| record_line(r));
    if rs.len() == 0 {
        assert(split(Seq::<char>::empty(), '\n') =~= seq![Seq::<char>::empty()]);
        assert(lines.push(Seq::<char>::empty()) =~= seq![Seq::<char>::empty()]);
    } else {
        let init = rs.drop_last();
        assert forall|i: int| 0 <= i < init.len() implies file_safe(#[trigger] init[i]) by {
            assert(init[i] == rs[i]);
        }
        lemma_records_split(init);
        let last = rs.last();
        assert(last == rs[rs.len() - 1]);
        lemma_record_text_shape(last);
        let t = record_text(last)->Ok_0;
        let l = record_line(last);
        assert(t =~= l + seq!['\n'] + Seq::<char>::empty());
        let a = records_text(init)->Ok_0;
        assert(records_text(rs) == Ok::<Seq<char>, crate::gaf::GafError>(a + t));
        lemma_split_len1(l, '\n');
        if init.len() == 0 {
            assert(a =~= Seq::<char>::empty());
            assert(a + t =~= l + seq!['\n'] + Seq::<char>::empty());
            lemma_split_concat(l, Seq::<char>::empty(), '\n');
            assert(split(Seq::<char>::empty(), '\n') =~= seq![Seq::<char>::empty()]);
        } else {
            // the text so far ends with a newline
            let a0 = a.drop_last();
            lemma_records_last_newline(init);
            assert(a =~= a0 + seq!['\n'] + Seq::<char>::empty());
            lemma_split_concat(a0, Seq::<char>::empty(), '\n');
            assert(split(Seq::<char>::empty(), '\n') =~= seq![Seq::<char>::empty()]);
            let il = init.map_values(|r: GafRecord| record_line(r));
            assert(split(a, '\n') == split(a0, '\n') + seq![Seq::<char>::empty()]);
            assert(split(a, '\n') == il.push(Seq::<char>::empty()));
            assert((split(a0, '\n') + seq![Seq::<char>::empty()]).drop_last() =~= split(a0, '\n'));
            assert(il.push(Seq::<char>::empty()).drop_last() =~= il);
            assert(split(a0, '\n') =~= il);
            assert(a + t =~= a0 + seq!['\n'] + (l + seq!['\n'] + Seq::<char>::empty()));
            lemma_split_concat(a0, l + seq!['\n'] + Seq::<char>::empty(), '\n');
            lemma_split_concat(l, Seq::<char>::empty(), '\n');
        }
        assert(lines =~= init.map_values(|r: GafRecord| record_line(r)).push(l));
        assert(split(a + t, '\n') =~= lines.push(Seq::<char>::empty()));
    }
}

proof fn lemma_records_last_newline(rs: Seq<GafRecord>)
    requires
        rs.len() > 0,
        forall|i: int| 0 <= i < rs.len() ==> file_safe(#[trigger] rs[i]),
        records_text(rs) is Ok,
    ensures
        records_text(rs)->Ok_0.len() > 0,
        records_text(rs)->Ok_0.last() == '\n',
{
    let last = rs.last();
    assert(last == rs[rs.len() - 1]);
    lemma_record_text_shape(last);
    let a = records_text(rs.drop_last())->Ok_0;
    let t = record_text(last)->Ok_0;
    assert(records_text(rs)->Ok_0 == a + t);
    assert((a + t).last() == t.last());
}

proof fn lemma_lines_fault_none(rs: Seq<GafRecord>)
    requires
        forall|i: int| 0 <= i < rs.len() ==> file_safe(#[trigger] rs[i]),
    ensures
        lines_fault(rs.map_values(|r: GafRecord| record_line(r))) is None,
    decreases rs.len(),
{
    let ls = rs.map_values(|r: GafRecord| record_line(r));
    if rs.len() > 0 {
        let tail = rs.drop_first();
        assert forall|i: int| 0 <= i < tail.len() implies file_safe(#[trigger] tail[i]) by {
            assert(tail[i] == rs[i + 1]);
        }
        lemma_lines_fault_none(tail);
        assert(ls.drop_first() =~= tail.map_values(|r: GafRecord| record_line(r)));
        lemma_written_record_reads_back(rs[0]);
    }
}

/// Writing records to a file and reading the file back gives the same
/// records: the text splits into one line per record, no line has a fault,
/// and every field of each record is the one that reading its line yields.
pub proof fn lemma_written_file_reads_back(rs: Seq<GafRecord>)
    requires
        forall|i: int| 0 <= i < rs.len() ==> file_safe(#[trigger] rs[i]),
    ensures
        records_text(rs) is Ok,
        lines_of(records_text(rs)->Ok_0).len() == rs.len(),
        lines_fault(lines_of(records_text(rs)->Ok_0)) is None,
        forall|i: int|
            0 <= i < rs.len() ==> holds_fields(
                #[trigger] rs[i],
                split(lines_of(records_text(rs)->Ok_0)[i], '\t'),
            ),
{
    lemma_records_split(rs);
    let text = records_text(rs)->Ok_0;
    let ps = split(text, '\n');
    let ls = rs.map_values(|r: GafRecord| record_line(r));
    assert(ps.last() == Seq::<char>::empty());
    assert forall|i: int| 0 <= i < ls.len() implies line_body(ps, i) == ls[i] by {
        assert(ps[i] == ls[i]);
        assert(ls[i] == record_line(rs[i]));
        assert(file_safe(rs[i]));
        if ps[i].len() > 0 && ps[i].last() == '\r' {
            assert(ps[i][ps[i].len() - 1] == '\r');
            assert(record_line(rs[i]).contains('\r'));
        }
    }
    assert(lines_of(text) =~= ls);
    lemma_lines_fault_none(rs);
    assert forall|i: int| 0 <= i < rs.len() implies holds_fields(
        #[trigger] rs[i],
        split(lines_of(text)[i], '\t'),
    ) by {
        lemma_written_record_reads_back(rs[i]);
        assert(lines_of(text)[i] == record_line(rs[i]));
    }
}

} // verus!
