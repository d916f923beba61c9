//! Presenting clusters: filtering and ordering them, and rendering them as aligned text
//! or as CSV. Rates are measured in floating point by the caller, which hands them in
//! already formatted.
use vstd::prelude::*;

use crate::cluster::{Cluster, ClusterView};
use crate::text::{decimal, digit_char, push_decimal, string_push};
use crate::tokenize::chars_of;

verus! {

/// Output format selector.
#[derive(Clone, Copy, Debug, PartialEq, Eq)]
pub enum Format {
    /// Aligned, human-readable columns.
    Text,
    /// JSON array of cluster objects (pretty-printed).
    Json,
    /// JSON Lines: one compact JSON object per line.
    Jsonl,
    /// RFC-4180 CSV with a header row.
    Csv,
}

/// Cluster ordering.
#[derive(Clone, Copy, Debug, PartialEq, Eq)]
pub enum Sort {
    /// Largest clusters first.
    Size,
    /// Alphabetical by template.
    Template,
    /// Ascending by cluster id.
    Id,
    /// Highest lines-per-minute first.
    Rate,
}

/// The views of a sequence of clusters.
pub open spec fn cluster_views(cs: Seq<Cluster>) -> Seq<ClusterView> {
    cs.map_values(|c: Cluster| c@)
}

/// The observed processing span of a cluster in milliseconds (0 if the clock went back).
pub open spec fn observed_span(c: ClusterView) -> nat {
    if c.updated_at_ms >= c.created_at_ms {
        (c.updated_at_ms - c.created_at_ms) as nat
    } else {
        0
    }
}

/// Whether a cluster has a positive lines-per-minute rate: a span of at least a second
/// (shorter spans have rate 0) and at least one line.
pub open spec fn rate_positive(c: ClusterView) -> bool {
    observed_span(c) >= 1000 && c.size > 0
}

/// Whether `a`'s lines-per-minute rate, `size * 60000 / span` (0 under a second), is
/// greater than `b`'s, compared exactly.
pub open spec fn rate_gt(a: ClusterView, b: ClusterView) -> bool {
    if observed_span(a) < 1000 {
        false
    } else if observed_span(b) < 1000 {
        a.size > 0
    } else {
        a.size * observed_span(b) > b.size * observed_span(a)
    }
}

/// Strict lexicographic order of char sequences (chars compare by code point).
pub open spec fn lex_lt(a: Seq<char>, b: Seq<char>) -> bool
    decreases a.len(),
{
    if a.len() == 0 {
        b.len() > 0
    } else if b.len() == 0 {
        false
    } else if a[0] != b[0] {
        a[0] < b[0]
    } else {
        lex_lt(a.skip(1), b.skip(1))
    }
}

/// Whether cluster `a` goes strictly before `b` in order `sort`: by size descending
/// then id, by template, by id, or by rate descending then id.
pub open spec fn goes_before(sort: Sort, a: ClusterView, b: ClusterView) -> bool {
    match sort {
        Sort::Size => a.size > b.size || (a.size == b.size && a.id < b.id),
        Sort::Template => lex_lt(a.template, b.template),
        Sort::Id => a.id < b.id,
        Sort::Rate => rate_gt(a, b) || (!rate_gt(b, a) && a.id < b.id),
    }
}

/// `x` inserted into `s` after every element it does not go before.
pub open spec fn insert_sorted(s: Seq<ClusterView>, x: ClusterView, sort: Sort) -> Seq<ClusterView>
    decreases s.len(),
{
    if s.len() == 0 {
        seq![x]
    } else if goes_before(sort, x, s.last()) {
        insert_sorted(s.drop_last(), x, sort).push(s.last())
    } else {
        s.push(x)
    }
}

/// `s` stably sorted by `sort`, by inserting its elements one after another.
pub open spec fn sorted_by(s: Seq<ClusterView>, sort: Sort) -> Seq<ClusterView>
    decreases s.len(),
{
    if s.len() == 0 {
        s
    } else {
        insert_sorted(sorted_by(s.drop_last(), sort), s.last(), sort)
    }
}

/// The clusters of at least `min` lines, in their order.
pub open spec fn at_least(s: Seq<ClusterView>, min: u64) -> Seq<ClusterView>
    decreases s.len(),
{
    if s.len() == 0 {
        s
    } else if s.last().size >= min {
        at_least(s.drop_last(), min).push(s.last())
    } else {
        at_least(s.drop_last(), min)
    }
}

/// `a < b` on code-point sequences, comparing strings.
fn str_lt(a: &str, b: &str) -> (r: bool)
    ensures
        r == lex_lt(a@, b@),
{
    let x = chars_of(a);
    let y = chars_of(b);
    let mut i: usize = 0;
    assert(a@.skip(0) =~= a@ && b@.skip(0) =~= b@);
    while i < x.len() && i < y.len()
        invariant
            i <= x.len(),
            i <= y.len(),
            x@ == a@,
            y@ == b@,
            lex_lt(a@, b@) == lex_lt(a@.skip(i as int), b@.skip(i as int)),
        decreases x.len() - i,
    {
        assert(a@.skip(i as int)[0] == x@[i as int]);
        assert(b@.skip(i as int)[0] == y@[i as int]);
        if x[i] != y[i] {
            return x[i] < y[i];
        }
        assert(a@.skip(i as int).skip(1) =~= a@.skip(i + 1));
        assert(b@.skip(i as int).skip(1) =~= b@.skip(i + 1));
        i = i + 1;
    }
    x.len() - i == 0 && y.len() - i > 0
}

/// The observed span of a cluster, in milliseconds.
fn span_of(c: &Cluster) -> (r: u64)
    ensures
        r == observed_span(c@),
{
    c.observed_span_ms()
}

/// Whether `a`'s rate exceeds `b`'s (see [`rate_gt`]).
fn rate_greater(a: &Cluster, b: &Cluster) -> (r: bool)
    ensures
        r == rate_gt(a@, b@),
{
    let sa = span_of(a);
    let sb = span_of(b);
    if sa < 1000 {
        false
    } else if sb < 1000 {
        a.size() > 0
    } else {
        proof {
            assert(0 <= (a@.size as int) * (sb as int) <= u128::MAX) by (nonlinear_arith)
                requires
                    a@.size <= u64::MAX,
                    sb <= u64::MAX,
            ;
            assert(0 <= (b@.size as int) * (sa as int) <= u128::MAX) by (nonlinear_arith)
                requires
                    b@.size <= u64::MAX,
                    sa <= u64::MAX,
            ;
        }
        (a.size() as u128) * (sb as u128) > (b.size() as u128) * (sa as u128)
    }
}

/// Whether `a` goes strictly before `b` in order `sort`.
pub fn goes_before_in(sort: Sort, a: &Cluster, b: &Cluster) -> (r: bool)
    ensures
        r == goes_before(sort, a@, b@),
{
    match sort {
        Sort::Size => a.size() > b.size() || (a.size() == b.size() && a.id() < b.id()),
        Sort::Template => str_lt(a.template(), b.template()),
        Sort::Id => a.id() < b.id(),
        Sort::Rate => rate_greater(a, b) || (!rate_greater(b, a) && a.id() < b.id()),
    }
}

/// Filter by minimum size and order clusters per `sort` (stably).
pub fn prepare(clusters: Vec<Cluster>, min_size: u64, sort: Sort) -> (r: Vec<Cluster>)
    ensures
        cluster_views(r@) == sorted_by(at_least(cluster_views(clusters@), min_size), sort),
{
    let ghost src = cluster_views(clusters@);
    let mut rest = clusters;
    let mut out: Vec<Cluster> = Vec::new();
    let ghost mut i: int = 0;
    while rest.len() > 0
        invariant
            0 <= i <= src.len(),
            cluster_views(rest@) == src.skip(i),
            cluster_views(out@) == sorted_by(at_least(src.take(i), min_size), sort),
        decreases rest.len(),
    {
        let ghost r0 = rest@;
        proof {
            assert(cluster_views(r0).len() == r0.len());
            assert(i < src.len());
            assert(cluster_views(r0)[0] == src[i]);
        }
        let c = rest.remove(0);
        proof {
            assert(c@ == src[i]);
            assert forall|k: int| 0 <= k < rest@.len() implies #[trigger] cluster_views(rest@)[k]
                == src.skip(i + 1)[k] by {
                assert(rest@[k] == r0[k + 1]);
                assert(cluster_views(r0)[k + 1] == src.skip(i)[k + 1]);
            }
            assert(cluster_views(rest@) =~= src.skip(i + 1));
            assert(src.take(i + 1).drop_last() =~= src.take(i));
            assert(src.take(i + 1).last() == src[i]);
        }
        if c.size() >= min_size {
            let ghost sorted = cluster_views(out@);
            let mut pos: usize = out.len();
            proof {
                assert(sorted.take(pos as int) =~= sorted);
                assert(insert_sorted(sorted, c@, sort) + sorted.skip(pos as int) =~= insert_sorted(sorted, c@, sort));
            }
            while pos > 0 && goes_before_in(sort, &c, &out[pos - 1])
                invariant
                    pos <= out.len(),
                    sorted == cluster_views(out@),
                    insert_sorted(sorted, c@, sort) == insert_sorted(sorted.take(pos as int), c@, sort)
                        + sorted.skip(pos as int),
                decreases pos,
            {
                proof {
                    let t = sorted.take(pos as int);
                    assert(t.last() == out@[pos - 1]@);
                    assert(t.drop_last() =~= sorted.take(pos - 1));
                    assert(sorted.skip(pos - 1) =~= seq![t.last()] + sorted.skip(pos as int));
                    assert(insert_sorted(t, c@, sort) == insert_sorted(t.drop_last(), c@, sort).push(t.last()));
                    assert(insert_sorted(t.drop_last(), c@, sort).push(t.last()) + sorted.skip(pos as int)
                        =~= insert_sorted(t.drop_last(), c@, sort) + sorted.skip(pos - 1));
                }
                pos = pos - 1;
            }
            proof {
                let t = sorted.take(pos as int);
                if pos == 0 {
                    assert(t =~= Seq::<ClusterView>::empty());
                } else {
                    assert(t.last() == out@[pos - 1]@);
                    assert(t.drop_last().push(t.last()) =~= t);
                }
                assert(insert_sorted(t, c@, sort) =~= t.push(c@));
            }
            let ghost cv = c@;
            out.insert(pos, c);
            proof {
                assert(cluster_views(out@) =~= sorted.take(pos as int).push(cv) + sorted.skip(pos as int));
                let a = at_least(src.take(i), min_size);
                let t1 = src.take(i + 1);
                assert(at_least(t1, min_size) == a.push(cv));
                assert(a.push(cv).drop_last() =~= a);
                assert(sorted_by(a.push(cv), sort) == insert_sorted(sorted_by(a, sort), cv, sort));
            }
        } else {
            proof {
                assert(at_least(src.take(i + 1), min_size) == at_least(src.take(i), min_size));
            }
        }
        proof {
            i = i + 1;
        }
    }
    proof {
        assert(src.skip(i).len() == 0);
        assert(src.take(i) =~= src);
    }
    out
}

/// Spaces.
pub open spec fn spaces(n: nat) -> Seq<char> {
    Seq::new(n, |k: int| ' ')
}

/// `s` right-aligned in a field of `w` chars.
pub open spec fn pad_left(s: Seq<char>, w: nat) -> Seq<char> {
    if s.len() < w {
        spaces((w - s.len()) as nat) + s
    } else {
        s
    }
}

/// The larger of two widths.
pub open spec fn wider(a: nat, b: nat) -> nat {
    if a >= b {
        a
    } else {
        b
    }
}

/// The width of the id column: the widest id, at least 2.
pub open spec fn id_width(cs: Seq<ClusterView>) -> nat
    decreases cs.len(),
{
    if cs.len() == 0 {
        2
    } else {
        wider(id_width(cs.drop_last()), decimal(cs.last().id as nat).len())
    }
}

/// The width of the size column: the widest size, at least 4.
pub open spec fn size_width(cs: Seq<ClusterView>) -> nat
    decreases cs.len(),
{
    if cs.len() == 0 {
        4
    } else {
        wider(size_width(cs.drop_last()), decimal(cs.last().size as nat).len())
    }
}

/// Whether some cluster has a positive rate, so the rate column is shown.
pub open spec fn shows_rate(cs: Seq<ClusterView>) -> bool {
    exists|i: int| 0 <= i < cs.len() && rate_positive(#[trigger] cs[i])
}

/// One text row: id, size, the rate column when shown, template.
pub open spec fn text_row(c: ClusterView, rate: Seq<char>, idw: nat, sw: nat, show: bool) -> Seq<char> {
    pad_left(decimal(c.id as nat), idw) + "  "@ + pad_left(decimal(c.size as nat), sw) + "  "@ + (
    if show {
        pad_left(rate, 9) + "  "@
    } else {
        Seq::empty()
    }) + c.template + seq!['\n']
}

/// The text header.
pub open spec fn text_header(idw: nat, sw: nat, show: bool) -> Seq<char> {
    pad_left("ID"@, idw) + "  "@ + pad_left("SIZE"@, sw) + "  "@ + (if show {
        pad_left("RATE/MIN"@, 9) + "  "@
    } else {
        Seq::empty()
    }) + "TEMPLATE\n"@
}

/// The text rows of the first `k` clusters.
pub open spec fn text_rows(
    cs: Seq<ClusterView>,
    rates: Seq<Seq<char>>,
    idw: nat,
    sw: nat,
    show: bool,
    k: int,
) -> Seq<char>
    decreases k,
{
    if k <= 0 {
        Seq::empty()
    } else {
        text_rows(cs, rates, idw, sw, show, k - 1) + text_row(cs[k - 1], rates[k - 1], idw, sw, show)
    }
}

/// The aligned text rendering of clusters with their formatted rates.
pub open spec fn spec_render_text(cs: Seq<ClusterView>, rates: Seq<Seq<char>>) -> Seq<char> {
    let idw = id_width(cs);
    let sw = size_width(cs);
    let show = shows_rate(cs);
    text_header(idw, sw, show) + text_rows(cs, rates, idw, sw, show, cs.len() as int)
}

/// The number of chars of the decimal rendering of `n`.
fn decimal_len(n: u64) -> (r: usize)
    ensures
        r == decimal(n as nat).len(),
{
    let mut s = String::new();
    push_decimal(&mut s, n);
    assert(s@ =~= decimal(n as nat));
    let v = chars_of(s.as_str());
    v.len()
}

/// Append `s` right-aligned in a field of `w` chars.
fn push_padded(out: &mut String, s: &str, w: usize)
    ensures
        final(out)@ == old(out)@ + pad_left(s@, w as nat),
{
    let n = chars_of(s).len();
    if n < w {
        let mut k: usize = 0;
        while k < w - n
            invariant
                n < w,
                k <= w - n,
                out@ == old(out)@ + spaces(k as nat),
            decreases w - n - k,
        {
            string_push(out, ' ');
            assert(spaces((k + 1) as nat) =~= spaces(k as nat).push(' '));
            k = k + 1;
        }
    }
    out.append(s);
    assert(final(out)@ =~= old(out)@ + pad_left(s@, w as nat));
}

/// The decimal rendering of `n` as a string.
fn decimal_string(n: u64) -> (s: String)
    ensures
        s@ == decimal(n as nat),
{
    let mut s = String::new();
    push_decimal(&mut s, n);
    assert(s@ =~= decimal(n as nat));
    s
}

/// Render clusters as aligned text; `rates[i]` is the formatted lines-per-minute rate of
/// `clusters[i]`, shown in a column when some cluster's rate is positive.
pub fn render_text(clusters: &[Cluster], rates: &[String]) -> (out: String)
    requires
        clusters.len() == rates.len(),
    ensures
        out@ == spec_render_text(
            cluster_views(clusters@),
            rates@.map_values(|r: String| r@),
        ),
{
    let ghost cs = cluster_views(clusters@);
    let ghost rs = rates@.map_values(|r: String| r@);
    let mut idw: usize = 2;
    let mut sw: usize = 4;
    let mut show = false;
    let mut i: usize = 0;
    while i < clusters.len()
        invariant
            i <= clusters.len(),
            cs == cluster_views(clusters@),
            idw == id_width(cs.take(i as int)),
            sw == size_width(cs.take(i as int)),
            show == shows_rate(cs.take(i as int)),
        decreases clusters.len() - i,
    {
        let c = &clusters[i];
        proof {
            assert(cs.take(i + 1).drop_last() =~= cs.take(i as int));
            assert(cs.take(i + 1).last() == c@);
        }
        let dl = decimal_len(c.id());
        if dl > idw {
            idw = dl;
        }
        let sl = decimal_len(c.size());
        if sl > sw {
            sw = sl;
        }
        let positive = span_of(c) >= 1000 && c.size() > 0;
        proof {
            let t = cs.take(i + 1);
            if show || positive {
                if positive {
                    assert(t[i as int] == c@);
                } else {
                    let j = choose|j: int| 0 <= j < i && rate_positive(#[trigger] cs.take(i as int)[j]);
                    assert(t[j] == cs.take(i as int)[j]);
                }
            } else {
                assert forall|j: int| 0 <= j < t.len() implies !rate_positive(#[trigger] t[j]) by {
                    if j < i {
                        assert(t[j] == cs.take(i as int)[j]);
                    }
                }
            }
        }
        show = show || positive;
        i = i + 1;
    }
    proof {
        assert(cs.take(clusters.len() as int) =~= cs);
    }
    let mut out = String::new();
    push_padded(&mut out, "ID", idw);
    out.append("  ");
    push_padded(&mut out, "SIZE", sw);
    out.append("  ");
    if show {
        push_padded(&mut out, "RATE/MIN", 9);
        out.append("  ");
    }
    out.append("TEMPLATE\n");
    proof {
        assert(out@ =~= text_header(idw as nat, sw as nat, show));
    }
    let ghost head = out@;
    let mut k: usize = 0;
    while k < clusters.len()
        invariant
            k <= clusters.len(),
            clusters.len() == rates.len(),
            cs == cluster_views(clusters@),
            rs == rates@.map_values(|r: String| r@),
            out@ == head + text_rows(cs, rs, idw as nat, sw as nat, show, k as int),
        decreases clusters.len() - k,
    {
        let c = &clusters[k];
        let ghost before = out@;
        let id_text = decimal_string(c.id());
        push_padded(&mut out, id_text.as_str(), idw);
        out.append("  ");
        let size_text = decimal_string(c.size());
        push_padded(&mut out, size_text.as_str(), sw);
        out.append("  ");
        if show {
            push_padded(&mut out, rates[k].as_str(), 9);
            out.append("  ");
        }
        out.append(c.template());
        string_push(&mut out, '\n');
        proof {
            assert(cs[k as int] == c@);
            assert(rs[k as int] == rates@[k as int]@);
            assert(out@ =~= before + text_row(cs[k as int], rs[k as int], idw as nat, sw as nat, show));
        }
        k = k + 1;
    }
    out
}

/// Whether a CSV field needs quoting: it holds a comma, a quote, or a line break.
pub open spec fn needs_quotes(f: Seq<char>) -> bool {
    exists|i: int| 0 <= i < f.len() && (f[i] == ',' || f[i] == '"' || f[i] == '\n' || f[i] == '\r')
}

/// `f` with each quote doubled.
pub open spec fn double_quotes(f: Seq<char>) -> Seq<char>
    decreases f.len(),
{
    if f.len() == 0 {
        f
    } else if f.last() == '"' {
        double_quotes(f.drop_last()) + seq!['"', '"']
    } else {
        double_quotes(f.drop_last()).push(f.last())
    }
}

/// A CSV field as written: quoted, with inner quotes doubled, when it needs quoting.
pub open spec fn spec_csv_escape(f: Seq<char>) -> Seq<char> {
    if needs_quotes(f) {
        seq!['"'] + double_quotes(f) + seq!['"']
    } else {
        f
    }
}

/// Quote a CSV field when it holds a comma, a quote or a line break.
pub fn csv_escape(field: &str) -> (r: String)
    ensures
        r@ == spec_csv_escape(field@),
{
    let cs = chars_of(field);
    let mut quote = false;
    let mut i: usize = 0;
    while i < cs.len()
        invariant
            i <= cs.len(),
            cs@ == field@,
            quote == exists|j: int| 0 <= j < i && (cs@[j] == ',' || cs@[j] == '"' || cs@[j] == '\n' || cs@[j] == '\r'),
        decreases cs.len() - i,
    {
        let c = cs[i];
        if c == ',' || c == '"' || c == '\n' || c == '\r' {
            quote = true;
        }
        i = i + 1;
    }
    if !quote {
        let mut r = String::new();
        r.append(field);
        assert(r@ =~= field@);
        return r;
    }
    let mut r = String::new();
    string_push(&mut r, '"');
    let mut k: usize = 0;
    while k < cs.len()
        invariant
            k <= cs.len(),
            cs@ == field@,
            r@ == seq!['"'] + double_quotes(field@.take(k as int)),
        decreases cs.len() - k,
    {
        let c = cs[k];
        proof {
            assert(field@.take(k + 1).drop_last() =~= field@.take(k as int));
            assert(field@.take(k + 1).last() == c);
        }
        if c == '"' {
            string_push(&mut r, '"');
            string_push(&mut r, '"');
        } else {
            string_push(&mut r, c);
        }
        assert(r@ =~= seq!['"'] + double_quotes(field@.take(k + 1)));
        k = k + 1;
    }
    string_push(&mut r, '"');
    assert(field@.take(cs.len() as int) =~= field@);
    assert(r@ =~= spec_csv_escape(field@));
    r
}

/// The CSV header row.
pub open spec fn csv_header() -> Seq<char> {
    "id,size,rate_per_min,template,created_at,updated_at,event_first_seen,event_last_seen,event_rate_per_min,members,suffix\n"@
}

/// Fields joined by `sep`.
pub open spec fn joined(fs: Seq<Seq<char>>, sep: char) -> Seq<char>
    decreases fs.len(),
{
    if fs.len() == 0 {
        Seq::empty()
    } else if fs.len() == 1 {
        fs[0]
    } else {
        joined(fs.drop_last(), sep) + seq![sep] + fs.last()
    }
}

/// An optional millisecond value as a CSV field: its decimal, or empty.
pub open spec fn opt_ms_field(v: Option<u64>) -> Seq<char> {
    match v {
        Some(ms) => decimal(ms as nat),
        None => Seq::empty(),
    }
}

/// The raw fields of a CSV row, before escaping.
pub open spec fn csv_fields(c: ClusterView, rate: Seq<char>, event_rate: Option<Seq<char>>) -> Seq<
    Seq<char>,
> {
    seq![
        decimal(c.id as nat),
        decimal(c.size as nat),
        rate,
        c.template,
        decimal(c.created_at_ms as nat),
        decimal(c.updated_at_ms as nat),
        opt_ms_field(c.event_first_ms),
        opt_ms_field(c.event_last_ms),
        match event_rate {
            Some(r) => r,
            None => Seq::empty(),
        },
        joined(c.members, ';'),
        match c.suffix {
            Some(s) => s,
            None => Seq::empty(),
        },
    ]
}

/// One CSV row: the escaped fields joined by commas, then a newline.
pub open spec fn csv_row(c: ClusterView, rate: Seq<char>, event_rate: Option<Seq<char>>) -> Seq<char> {
    joined(csv_fields(c, rate, event_rate).map_values(|f: Seq<char>| spec_csv_escape(f)), ',').push(
        '\n',
    )
}

/// The CSV rows of the first `k` clusters.
pub open spec fn csv_rows(
    cs: Seq<ClusterView>,
    rates: Seq<Seq<char>>,
    event_rates: Seq<Option<Seq<char>>>,
    k: int,
) -> Seq<char>
    decreases k,
{
    if k <= 0 {
        Seq::empty()
    } else {
        csv_rows(cs, rates, event_rates, k - 1) + csv_row(cs[k - 1], rates[k - 1], event_rates[k - 1])
    }
}

/// The views of optional strings.
pub open spec fn opt_strings_view(v: Seq<Option<String>>) -> Seq<Option<Seq<char>>> {
    v.map_values(|o: Option<String>| crate::cluster::opt_string_view(o))
}

/// Members joined by `;`.
fn join_members(ms: &[String]) -> (r: String)
    ensures
        r@ == joined(crate::cluster::strings_view(ms@), ';'),
{
    let ghost v = crate::cluster::strings_view(ms@);
    let mut r = String::new();
    let mut i: usize = 0;
    while i < ms.len()
        invariant
            i <= ms.len(),
            v == crate::cluster::strings_view(ms@),
            r@ == joined(v.take(i as int), ';'),
        decreases ms.len() - i,
    {
        let ghost before = r@;
        if i > 0 {
            string_push(&mut r, ';');
        }
        r.append(ms[i].as_str());
        proof {
            let t = v.take(i + 1);
            assert(t.drop_last() =~= v.take(i as int));
            assert(t.last() == ms@[i as int]@);
            if i == 0 {
                assert(r@ =~= t[0]);
            } else {
                assert(r@ =~= joined(t.drop_last(), ';') + seq![';'] + t.last());
            }
        }
        i = i + 1;
    }
    assert(v.take(ms.len() as int) =~= v);
    r
}

/// Append a CSV row for `c`.
fn push_csv_row(out: &mut String, c: &Cluster, rate: &str, event_rate: &Option<String>)
    ensures
        final(out)@ == old(out)@ + csv_row(c@, rate@, crate::cluster::opt_string_view(*event_rate)),
{
    let mut fields: Vec<String> = Vec::new();
    fields.push(decimal_string(c.id()));
    fields.push(decimal_string(c.size()));
    fields.push(rate.to_owned());
    fields.push(c.template().to_owned());
    fields.push(decimal_string(c.created_at_ms()));
    fields.push(decimal_string(c.updated_at_ms()));
    fields.push(match c.event_first_ms() {
        Some(ms) => decimal_string(ms),
        None => String::new(),
    });
    fields.push(match c.event_last_ms() {
        Some(ms) => decimal_string(ms),
        None => String::new(),
    });
    fields.push(match event_rate {
        Some(r) => r.clone(),
        None => String::new(),
    });
    fields.push(join_members(c.members()));
    fields.push(match c.suffix() {
        Some(s) => s.to_owned(),
        None => String::new(),
    });
    let ghost fs = csv_fields(c@, rate@, crate::cluster::opt_string_view(*event_rate));
    assert(crate::cluster::strings_view(fields@) =~= fs);
    let ghost es = fs.map_values(|f: Seq<char>| spec_csv_escape(f));
    let ghost start = out@;
    let mut i: usize = 0;
    while i < fields.len()
        invariant
            i <= fields.len(),
            fields.len() == 11,
            crate::cluster::strings_view(fields@) == fs,
            es == fs.map_values(|f: Seq<char>| spec_csv_escape(f)),
            out@ == start + joined(es.take(i as int), ','),
        decreases fields.len() - i,
    {
        if i > 0 {
            string_push(out, ',');
        }
        let e = csv_escape(fields[i].as_str());
        out.append(e.as_str());
        proof {
            let t = es.take(i + 1);
            assert(t.drop_last() =~= es.take(i as int));
            assert(fields@[i as int]@ == fs[i as int]);
            assert(t.last() == e@);
            if i == 0 {
                assert(out@ =~= start + t[0]);
            } else {
                assert(out@ =~= start + (joined(t.drop_last(), ',') + seq![','] + t.last()));
            }
        }
        i = i + 1;
    }
    string_push(out, '\n');
    assert(es.take(11) =~= es);
    assert(final(out)@ =~= old(out)@ + csv_row(c@, rate@, crate::cluster::opt_string_view(*event_rate)));
}

/// Render clusters as CSV with a header row; `rates[i]` and `event_rates[i]` are the
/// formatted observed and event-time rates of `clusters[i]` (no event rate without
/// event time).
pub fn render_csv(clusters: &[Cluster], rates: &[String], event_rates: &[Option<String>]) -> (out:
    String)
    requires
        clusters.len() == rates.len(),
        clusters.len() == event_rates.len(),
    ensures
        out@ == csv_header() + csv_rows(
            cluster_views(clusters@),
            rates@.map_values(|r: String| r@),
            opt_strings_view(event_rates@),
            clusters.len() as int,
        ),
{
    let ghost cs = cluster_views(clusters@);
    let ghost rs = rates@.map_values(|r: String| r@);
    let ghost es = opt_strings_view(event_rates@);
    let mut out = "id,size,rate_per_min,template,created_at,updated_at,event_first_seen,event_last_seen,event_rate_per_min,members,suffix\n".to_owned();
    let mut k: usize = 0;
    while k < clusters.len()
        invariant
            k <= clusters.len(),
            clusters.len() == rates.len(),
            clusters.len() == event_rates.len(),
            cs == cluster_views(clusters@),
            rs == rates@.map_values(|r: String| r@),
            es == opt_strings_view(event_rates@),
            out@ == csv_header() + csv_rows(cs, rs, es, k as int),
        decreases clusters.len() - k,
    {
        push_csv_row(&mut out, &clusters[k], rates[k].as_str(), &event_rates[k]);
        proof {
            assert(cs[k as int] == clusters@[k as int]@);
            assert(rs[k as int] == rates@[k as int]@);
            assert(es[k as int] == crate::cluster::opt_string_view(event_rates@[k as int]));
        }
        k = k + 1;
    }
    out
}

} // verus!

verus! {

/// Whether `s` is ordered by `sort`: no element goes before an earlier one.
pub open spec fn sorted_in(s: Seq<ClusterView>, sort: Sort) -> bool {
    forall|i: int, j: int| 0 <= i < j < s.len() ==> !goes_before(sort, #[trigger] s[j], #[trigger] s[i])
}

proof fn lemma_lex_asym(a: Seq<char>, b: Seq<char>)
    ensures
        lex_lt(a, b) ==> !lex_lt(b, a),
    decreases a.len(),
{
    if a.len() > 0 && b.len() > 0 && a[0] == b[0] {
        lemma_lex_asym(a.skip(1), b.skip(1));
    }
}

proof fn lemma_lex_total(a: Seq<char>, b: Seq<char>)
    ensures
        !lex_lt(a, b) && !lex_lt(b, a) ==> a == b,
    decreases a.len(),
{
    if a.len() > 0 && b.len() > 0 && a[0] == b[0] {
        lemma_lex_total(a.skip(1), b.skip(1));
        if !lex_lt(a, b) && !lex_lt(b, a) {
            assert(a =~= seq![a[0]] + a.skip(1));
            assert(b =~= seq![b[0]] + b.skip(1));
        }
    } else if a.len() > 0 && b.len() > 0 {
        assert(a[0] < b[0] || b[0] < a[0]);
    } else if a.len() == 0 && b.len() == 0 {
        assert(a =~= b);
    }
}

proof fn lemma_lex_trans(a: Seq<char>, b: Seq<char>, c: Seq<char>)
    ensures
        lex_lt(a, b) && lex_lt(b, c) ==> lex_lt(a, c),
    decreases a.len(),
{
    if a.len() > 0 && b.len() > 0 && c.len() > 0 && a[0] == b[0] && b[0] == c[0] {
        lemma_lex_trans(a.skip(1), b.skip(1), c.skip(1));
    }
}

/// `a` before `b` under lexicographic order rules out `b` before `a`, and "not before"
/// is transitive.
proof fn lemma_lex_order(a: Seq<char>, b: Seq<char>, c: Seq<char>)
    ensures
        lex_lt(a, b) ==> !lex_lt(b, a),
        !lex_lt(a, b) && !lex_lt(b, c) ==> !lex_lt(a, c),
{
    lemma_lex_asym(a, b);
    if !lex_lt(a, b) && !lex_lt(b, c) && lex_lt(a, c) {
        lemma_lex_total(a, b);
        lemma_lex_total(b, c);
        lemma_lex_trans(b, a, c);
        lemma_lex_trans(a, c, b);
        lemma_lex_asym(b, c);
        lemma_lex_asym(a, b);
        lemma_lex_asym(a, c);
    }
}

/// A greater rate rules out the converse, and "not greater" is transitive.
proof fn lemma_rate_order(a: ClusterView, b: ClusterView, c: ClusterView)
    ensures
        rate_gt(a, b) ==> !rate_gt(b, a),
        !rate_gt(a, b) && !rate_gt(b, c) ==> !rate_gt(a, c),
{
    let (sa, sb, sc) = (a.size as int, b.size as int, c.size as int);
    let (pa, pb, pc) = (observed_span(a) as int, observed_span(b) as int, observed_span(c) as int);
    if !rate_gt(a, b) && !rate_gt(b, c) && pa >= 1000 {
        if pc < 1000 {
            if pb >= 1000 {
                assert(sb == 0);
                assert(sa * pb <= 0);
                assert(sa == 0) by (nonlinear_arith)
                    requires
                        sa * pb <= 0,
                        pb >= 1000,
                        sa >= 0,
                ;
            }
        } else if pb < 1000 {
            assert(sa == 0);
            assert(sa * pc == 0) by (nonlinear_arith)
                requires
                    sa == 0,
            ;
        } else {
            crate::consistency::lemma_ge_ge(
                (c.size as nat, observed_span(c)),
                (b.size as nat, observed_span(b)),
                (a.size as nat, observed_span(a)),
            );
        }
    }
}

/// The orders are strict weak orders: `a` before `b` rules out `b` before `a`, and
/// "not before" is transitive.
pub proof fn lemma_order(sort: Sort, a: ClusterView, b: ClusterView, c: ClusterView)
    ensures
        goes_before(sort, a, b) ==> !goes_before(sort, b, a),
        !goes_before(sort, a, b) && !goes_before(sort, b, c) ==> !goes_before(sort, a, c),
{
    match sort {
        Sort::Template => lemma_lex_order(a.template, b.template, c.template),
        Sort::Rate => {
            lemma_rate_order(a, b, c);
            lemma_rate_order(b, a, c);
            lemma_rate_order(a, c, b);
            lemma_rate_order(b, c, a);
            lemma_rate_order(c, a, b);
            lemma_rate_order(c, b, a);
        },
        _ => {},
    }
}

proof fn lemma_insert_sorted(s: Seq<ClusterView>, x: ClusterView, sort: Sort)
    requires
        sorted_in(s, sort),
    ensures
        sorted_in(insert_sorted(s, x, sort), sort),
        insert_sorted(s, x, sort).to_multiset() == s.to_multiset().insert(x),
    decreases s.len(),
{
    broadcast use vstd::seq_lib::group_to_multiset_ensures;

    if s.len() == 0 {
        assert(insert_sorted(s, x, sort) =~= s.push(x));
    } else if goes_before(sort, x, s.last()) {
        let t = s.drop_last();
        let l = s.last();
        assert(sorted_in(t, sort)) by {
            assert forall|i: int, j: int| 0 <= i < j < t.len() implies !goes_before(
                sort,
                #[trigger] t[j],
                #[trigger] t[i],
            ) by {
                assert(t[i] == s[i] && t[j] == s[j]);
            }
        }
        lemma_insert_sorted(t, x, sort);
        let r = insert_sorted(t, x, sort);
        let res = r.push(l);
        assert(s =~= t.push(l));
        assert forall|i: int, j: int| 0 <= i < j < res.len() implies !goes_before(
            sort,
            #[trigger] res[j],
            #[trigger] res[i],
        ) by {
            if j == r.len() {
                let e = r[i];
                assert(r.to_multiset().count(e) > 0);
                if e == x {
                    lemma_order(sort, x, l, l);
                } else {
                    assert(t.to_multiset().count(e) > 0);
                    let k = choose|k: int| 0 <= k < t.len() && t[k] == e;
                    assert(s[k] == e && s[s.len() - 1] == l);
                }
            } else {
                assert(res[i] == r[i] && res[j] == r[j]);
            }
        }
    } else {
        let res = s.push(x);
        assert forall|i: int, j: int| 0 <= i < j < res.len() implies !goes_before(
            sort,
            #[trigger] res[j],
            #[trigger] res[i],
        ) by {
            if j == s.len() {
                let l = s.last();
                if i < s.len() - 1 {
                    assert(!goes_before(sort, s[s.len() - 1], s[i]));
                    lemma_order(sort, x, l, s[i]);
                }
            } else {
                assert(res[i] == s[i] && res[j] == s[j]);
            }
        }
    }
}

proof fn lemma_sorted_by(s: Seq<ClusterView>, sort: Sort)
    ensures
        sorted_in(sorted_by(s, sort), sort),
        sorted_by(s, sort).to_multiset() == s.to_multiset(),
    decreases s.len(),
{
    broadcast use vstd::seq_lib::group_to_multiset_ensures;

    if s.len() > 0 {
        lemma_sorted_by(s.drop_last(), sort);
        lemma_insert_sorted(sorted_by(s.drop_last(), sort), s.last(), sort);
        assert(s =~= s.drop_last().push(s.last()));
    }
}

proof fn lemma_at_least(s: Seq<ClusterView>, min: u64)
    ensures
        forall|x: ClusterView| #[trigger] at_least(s, min).contains(x) ==> x.size >= min,
        forall|i: int| 0 <= i < s.len() && s[i].size >= min ==> #[trigger] at_least(s, min).contains(
            s[i],
        ),
        forall|x: ClusterView| #[trigger] at_least(s, min).contains(x) ==> s.contains(x),
    decreases s.len(),
{
    if s.len() > 0 {
        let t = s.drop_last();
        let l = s.last();
        lemma_at_least(t, min);
        let a = at_least(t, min);
        let r = at_least(s, min);
        assert(r == if l.size >= min {
            a.push(l)
        } else {
            a
        });
        assert forall|i: int| 0 <= i < s.len() && s[i].size >= min implies #[trigger] r.contains(
            s[i],
        ) by {
            if i < s.len() - 1 {
                assert(t[i] == s[i]);
                assert(a.contains(t[i]));
                let k = choose|k: int| 0 <= k < a.len() && a[k] == s[i];
                assert(r[k] == s[i]);
            } else {
                assert(r[a.len() as int] == s[i]);
            }
        }
        assert forall|x: ClusterView| #[trigger] r.contains(x) implies x.size >= min && s.contains(x) by {
            let k = choose|k: int| 0 <= k < r.len() && r[k] == x;
            if k < a.len() {
                assert(a[k] == x);
                assert(a.contains(x));
                let m = choose|m: int| 0 <= m < t.len() && t[m] == x;
                assert(s[m] == x);
            } else {
                assert(x == l);
                assert(s[s.len() - 1] == x);
            }
        }
    }
}

/// What `prepare` returns is ordered by `sort`, holds exactly the clusters of at least
/// `min` lines (as many times as they are given), and nothing else.
pub proof fn law_prepare_sorts_and_filters(s: Seq<ClusterView>, min: u64, sort: Sort)
    ensures
        sorted_in(sorted_by(at_least(s, min), sort), sort),
        sorted_by(at_least(s, min), sort).to_multiset() == at_least(s, min).to_multiset(),
        forall|x: ClusterView|
            #[trigger] sorted_by(at_least(s, min), sort).contains(x) <==> (s.contains(x) && x.size
                >= min),
{
    broadcast use vstd::seq_lib::group_to_multiset_ensures;

    lemma_sorted_by(at_least(s, min), sort);
    lemma_at_least(s, min);
    let r = sorted_by(at_least(s, min), sort);
    assert forall|x: ClusterView| #[trigger] r.contains(x) <==> (s.contains(x) && x.size >= min) by {
        assert(r.to_multiset().count(x) == at_least(s, min).to_multiset().count(x));
        if s.contains(x) && x.size >= min {
            let i = choose|i: int| 0 <= i < s.len() && s[i] == x;
            assert(at_least(s, min).contains(s[i]));
        }
    }
}

/// Whether `a` occurs in `r` at some position before one where `b` occurs.
pub open spec fn before_in(r: Seq<ClusterView>, a: ClusterView, b: ClusterView) -> bool {
    exists|p: int, q: int| 0 <= p < q < r.len() && #[trigger] r[p] == a && #[trigger] r[q] == b
}

/// Where `insert_sorted` puts `x` into `t`.
spec fn insert_pos(t: Seq<ClusterView>, x: ClusterView, sort: Sort) -> int
    decreases t.len(),
{
    if t.len() == 0 {
        0
    } else if goes_before(sort, x, t.last()) {
        insert_pos(t.drop_last(), x, sort)
    } else {
        t.len() as int
    }
}

proof fn lemma_insert_pos(t: Seq<ClusterView>, x: ClusterView, sort: Sort)
    ensures
        0 <= insert_pos(t, x, sort) <= t.len(),
        insert_sorted(t, x, sort) == t.take(insert_pos(t, x, sort)) + seq![x] + t.skip(
            insert_pos(t, x, sort),
        ),
        forall|m: int| insert_pos(t, x, sort) <= m < t.len() ==> goes_before(sort, x, #[trigger] t[m]),
    decreases t.len(),
{
    let k = insert_pos(t, x, sort);
    if t.len() == 0 {
        assert(insert_sorted(t, x, sort) =~= t.take(0) + seq![x] + t.skip(0));
    } else if goes_before(sort, x, t.last()) {
        let u = t.drop_last();
        lemma_insert_pos(u, x, sort);
        assert forall|m: int| k <= m < t.len() implies goes_before(sort, x, #[trigger] t[m]) by {
            if m < u.len() {
                assert(t[m] == u[m]);
            }
        }
        assert(insert_sorted(t, x, sort) =~= t.take(k) + seq![x] + t.skip(k));
    } else {
        assert(insert_sorted(t, x, sort) =~= t.take(k) + seq![x] + t.skip(k));
    }
}

proof fn lemma_sorted_by_stable(s: Seq<ClusterView>, sort: Sort)
    ensures
        forall|i: int, j: int|
            0 <= i < j < s.len() && !goes_before(sort, #[trigger] s[j], #[trigger] s[i]) ==> before_in(
                sorted_by(s, sort),
                s[i],
                s[j],
            ),
    decreases s.len(),
{
    broadcast use vstd::seq_lib::group_to_multiset_ensures;

    if s.len() > 0 {
        let u = s.drop_last();
        let x = s.last();
        let t = sorted_by(u, sort);
        lemma_sorted_by_stable(u, sort);
        lemma_sorted_by(u, sort);
        lemma_insert_pos(t, x, sort);
        let k = insert_pos(t, x, sort);
        let r = sorted_by(s, sort);
        assert(r == t.take(k) + seq![x] + t.skip(k));
        assert forall|i: int, j: int|
            0 <= i < j < s.len() && !goes_before(sort, #[trigger] s[j], #[trigger] s[i]) implies before_in(
            r,
            s[i],
            s[j],
        ) by {
            assert(s[i] == u[i]);
            if j < s.len() - 1 {
                assert(s[j] == u[j]);
                assert(!goes_before(sort, u[j], u[i]));
                assert(before_in(t, u[i], u[j]));
                let (p, q) = choose|p: int, q: int|
                    0 <= p < q < t.len() && #[trigger] t[p] == u[i] && #[trigger] t[q] == u[j];
                let p2 = if p < k { p } else { p + 1 };
                let q2 = if q < k { q } else { q + 1 };
                assert(r[p2] == t[p]);
                assert(r[q2] == t[q]);
            } else {
                assert(t.to_multiset().count(u[i]) == u.to_multiset().count(u[i]));
                assert(u.contains(u[i]));
                assert(t.contains(u[i]));
                let p = choose|p: int| 0 <= p < t.len() && t[p] == u[i];
                if p >= k {
                    assert(goes_before(sort, x, t[p]));
                    assert(false);
                }
                assert(r[p] == t[p]);
                assert(r[k] == x);
            }
        }
    }
}

proof fn lemma_at_least_order(s: Seq<ClusterView>, min: u64)
    ensures
        forall|i: int, j: int|
            0 <= i < j < s.len() && (#[trigger] s[i]).size >= min && (#[trigger] s[j]).size >= min
                ==> exists|p: int, q: int|
                0 <= p < q < at_least(s, min).len() && at_least(s, min)[p] == s[i] && at_least(
                    s,
                    min,
                )[q] == s[j],
    decreases s.len(),
{
    if s.len() > 0 {
        let u = s.drop_last();
        lemma_at_least_order(u, min);
        lemma_at_least(u, min);
        let a = at_least(u, min);
        assert forall|i: int, j: int|
            0 <= i < j < s.len() && (#[trigger] s[i]).size >= min && (#[trigger] s[j]).size >= min
                implies exists|p: int, q: int|
            0 <= p < q < at_least(s, min).len() && at_least(s, min)[p] == s[i] && at_least(s, min)[q]
                == s[j] by {
            assert(s[i] == u[i]);
            if j < s.len() - 1 {
                assert(s[j] == u[j]);
                let (p, q) = choose|p: int, q: int| 0 <= p < q < a.len() && a[p] == u[i] && a[q] == u[j];
                if s.last().size >= min {
                    assert(at_least(s, min) == a.push(s.last()));
                    assert(at_least(s, min)[p] == a[p]);
                    assert(at_least(s, min)[q] == a[q]);
                } else {
                    assert(at_least(s, min) == a);
                }
            } else {
                assert(at_least(s, min) == a.push(s.last()));
                assert(a.contains(u[i]));
                let p = choose|p: int| 0 <= p < a.len() && a[p] == u[i];
                assert(at_least(s, min)[p] == a[p]);
                assert(at_least(s, min)[a.len() as int] == s.last());
            }
        }
    }
}

/// Preparing keeps input order where the sort does not decide otherwise: of two listed
/// clusters, one that came first in the input and that the other does not go before
/// (equal templates, say) comes first in the output.
pub proof fn law_prepare_keeps_input_order(s: Seq<ClusterView>, min: u64, sort: Sort, i: int, j: int)
    requires
        0 <= i < j < s.len(),
        s[i].size >= min,
        s[j].size >= min,
        !goes_before(sort, s[j], s[i]),
    ensures
        before_in(sorted_by(at_least(s, min), sort), s[i], s[j]),
{
    lemma_at_least_order(s, min);
    let a = at_least(s, min);
    let (p, q) = choose|p: int, q: int| 0 <= p < q < a.len() && a[p] == s[i] && a[q] == s[j];
    lemma_sorted_by_stable(a, sort);
    assert(!goes_before(sort, a[q], a[p]));
}

/// The CSV column names, in header order.
pub open spec fn csv_columns() -> Seq<Seq<char>> {
    seq![
        "id"@,
        "size"@,
        "rate_per_min"@,
        "template"@,
        "created_at"@,
        "updated_at"@,
        "event_first_seen"@,
        "event_last_seen"@,
        "event_rate_per_min"@,
        "members"@,
        "suffix"@,
    ]
}

proof fn lemma_decimal_digits(n: nat)
    ensures
        forall|i: int|
            0 <= i < decimal(n).len() ==> '0' <= #[trigger] decimal(n)[i] && decimal(n)[i] <= '9',
    decreases n,
{
    let d = digit_char(n % 10);
    assert('0' <= d && d <= '9');
    if n >= 10 {
        lemma_decimal_digits(n / 10);
        let a = decimal(n / 10);
        assert(decimal(n) == a + seq![d]);
        assert forall|i: int| 0 <= i < decimal(n).len() implies '0' <= #[trigger] decimal(n)[i]
            && decimal(n)[i] <= '9' by {
            if i < a.len() {
                assert(decimal(n)[i] == a[i]);
            }
        }
    } else {
        assert(n % 10 == n);
        assert(decimal(n) == seq![d]);
    }
}

/// A decimal needs no quoting in CSV: it is written as it is.
proof fn lemma_decimal_unquoted(n: nat)
    ensures
        spec_csv_escape(decimal(n)) == decimal(n),
{
    lemma_decimal_digits(n);
}

/// A CSV row lists a cluster's attributes under the header's column names: the field
/// under `event_first_seen` is the earliest event time and the one under
/// `event_last_seen` the latest (each in decimal unix-ms, empty when unset, written
/// without quoting), and likewise id, size, template and the creation and update times.
pub proof fn law_csv_fields_follow_header(
    c: ClusterView,
    rate: Seq<char>,
    event_rate: Option<Seq<char>>,
)
    ensures
        csv_header() == joined(csv_columns(), ',').push('\n'),
        csv_fields(c, rate, event_rate).len() == csv_columns().len(),
        csv_columns()[0] == "id"@ && csv_fields(c, rate, event_rate)[0] == decimal(c.id as nat),
        csv_columns()[1] == "size"@ && csv_fields(c, rate, event_rate)[1] == decimal(c.size as nat),
        csv_columns()[3] == "template"@ && csv_fields(c, rate, event_rate)[3] == c.template,
        csv_columns()[4] == "created_at"@ && csv_fields(c, rate, event_rate)[4] == decimal(
            c.created_at_ms as nat,
        ),
        csv_columns()[5] == "updated_at"@ && csv_fields(c, rate, event_rate)[5] == decimal(
            c.updated_at_ms as nat,
        ),
        csv_columns()[6] == "event_first_seen"@ && csv_fields(c, rate, event_rate)[6] == match c.event_first_ms {
            Some(ms) => decimal(ms as nat),
            None => Seq::<char>::empty(),
        },
        csv_columns()[7] == "event_last_seen"@ && csv_fields(c, rate, event_rate)[7] == match c.event_last_ms {
            Some(ms) => decimal(ms as nat),
            None => Seq::<char>::empty(),
        },
        csv_columns()[2] == "rate_per_min"@ && csv_fields(c, rate, event_rate)[2] == rate,
        csv_columns()[8] == "event_rate_per_min"@ && csv_fields(c, rate, event_rate)[8] == match event_rate {
            Some(er) => er,
            None => Seq::<char>::empty(),
        },
        csv_columns()[9] == "members"@ && csv_fields(c, rate, event_rate)[9] == joined(c.members, ';'),
        csv_columns()[10] == "suffix"@ && csv_fields(c, rate, event_rate)[10] == match c.suffix {
            Some(x) => x,
            None => Seq::<char>::empty(),
        },
        spec_csv_escape(csv_fields(c, rate, event_rate)[6]) == csv_fields(c, rate, event_rate)[6],
        spec_csv_escape(csv_fields(c, rate, event_rate)[7]) == csv_fields(c, rate, event_rate)[7],
{
    reveal_strlit("id");
    reveal_strlit("size");
    reveal_strlit("rate_per_min");
    reveal_strlit("template");
    reveal_strlit("created_at");
    reveal_strlit("updated_at");
    reveal_strlit("event_first_seen");
    reveal_strlit("event_last_seen");
    reveal_strlit("event_rate_per_min");
    reveal_strlit("members");
    reveal_strlit("suffix");
    reveal_strlit(
        "id,size,rate_per_min,template,created_at,updated_at,event_first_seen,event_last_seen,event_rate_per_min,members,suffix\n",
    );
    let cols = csv_columns();
    reveal_with_fuel(joined, 12);
    assert(csv_header() =~= joined(cols, ',').push('\n'));
    match c.event_first_ms {
        Some(ms) => lemma_decimal_unquoted(ms as nat),
        None => {
            assert(!needs_quotes(Seq::<char>::empty()));
        },
    }
    match c.event_last_ms {
        Some(ms) => lemma_decimal_unquoted(ms as nat),
        None => {
            assert(!needs_quotes(Seq::<char>::empty()));
        },
    }
}

/// `s` with each doubled quote read back as one quote, as a CSV reader does inside a
/// quoted field.
pub open spec fn undouble_quotes(s: Seq<char>) -> Seq<char>
    decreases s.len(),
{
    if s.len() == 0 {
        s
    } else if s.len() >= 2 && s.last() == '"' && s[s.len() - 2] == '"' {
        undouble_quotes(s.subrange(0, s.len() - 2)).push('"')
    } else {
        undouble_quotes(s.drop_last()).push(s.last())
    }
}

/// How a CSV reader reads one field as written: a quoted field loses its outer quotes
/// and has its doubled quotes read as single ones; any other field is read as it is.
pub open spec fn csv_read_field(s: Seq<char>) -> Seq<char> {
    if s.len() >= 2 && s[0] == '"' && s.last() == '"' {
        undouble_quotes(s.subrange(1, s.len() - 1))
    } else {
        s
    }
}

proof fn lemma_undouble_double(f: Seq<char>)
    ensures
        undouble_quotes(double_quotes(f)) == f,
    decreases f.len(),
{
    if f.len() > 0 {
        let g = f.drop_last();
        lemma_undouble_double(g);
        let d = double_quotes(g);
        if f.last() == '"' {
            let s2 = d + seq!['"', '"'];
            assert(s2.subrange(0, s2.len() - 2) =~= d);
        } else {
            let s2 = d.push(f.last());
            assert(s2.drop_last() =~= d);
        }
        assert(f =~= g.push(f.last()));
    }
}

/// Writing a field and reading it back gives the field: quoting keeps every field, commas,
/// quotes and line breaks included, and a field that needs no quoting is written as it
/// is.
pub proof fn law_csv_escape_reads_back(f: Seq<char>)
    ensures
        csv_read_field(spec_csv_escape(f)) == f,
        !needs_quotes(f) ==> spec_csv_escape(f) == f,
        needs_quotes(f) ==> spec_csv_escape(f).len() >= 2 && spec_csv_escape(f)[0] == '"'
            && spec_csv_escape(f).last() == '"',
{
    if needs_quotes(f) {
        let e = seq!['"'] + double_quotes(f) + seq!['"'];
        assert(e.subrange(1, e.len() - 1) =~= double_quotes(f));
        lemma_undouble_double(f);
    } else if f.len() >= 2 && f[0] == '"' {
        assert(needs_quotes(f));
    }
}

} // verus!
