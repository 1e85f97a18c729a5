//! The run's report as lines of text: the summary box, the latency table
//! and the histogram.
use vstd::prelude::*;
use crate::config::{
    command_line, given, lemma_defaults_follow_flags, port_given, Config, ConfigView, Knob,
};
use crate::stats::{bar, bar_text, LatencySummary, BUCKETS};
use crate::text::{
    chars_of, digits, digits_of, joined, pad_left, pad_right, push_padded_left, push_padded_right,
    push_repeated, push_text, repeated,
};

verus! {

/// The texts of some lines.
pub open spec fn texts(v: Seq<Vec<char>>) -> Seq<Seq<char>> {
    v.map_values(|t: Vec<char>| t@)
}

/// The widest of the texts, 0 when there are none.
pub open spec fn widest(v: Seq<Seq<char>>) -> nat
    decreases v.len(),
{
    if v.len() == 0 {
        0
    } else {
        let w = widest(v.drop_last());
        if v.last().len() > w {
            v.last().len()
        } else {
            w
        }
    }
}

pub proof fn lemma_widest(v: Seq<Seq<char>>)
    ensures
        forall|i: int| 0 <= i < v.len() ==> #[trigger] v[i].len() <= widest(v),
    decreases v.len(),
{
    if v.len() > 0 {
        lemma_widest(v.drop_last());
        assert forall|i: int| 0 <= i < v.len() implies #[trigger] v[i].len() <= widest(v) by {
            if i < v.len() - 1 {
                assert(v[i] == v.drop_last()[i]);
            }
        }
    }
}

/// Marks a setting that was left at its default.
pub open spec fn default_mark(d: bool) -> Seq<char> {
    if d {
        " (default)"@
    } else {
        Seq::empty()
    }
}

/// The labels of the summary rows.
pub open spec fn summary_labels() -> Seq<Seq<char>> {
    seq![
        "target"@,
        "port"@,
        "workload"@,
        "requests"@,
        "batch size"@,
        "rate"@,
        "duration"@,
        "achieved"@,
        "replies"@,
    ]
}

/// The values of the summary rows: the settings, each marked when left at
/// its default (the port also when the whole target was), the workload,
/// the measured duration and rate as the caller wrote them, and the
/// replies counted.
pub open spec fn summary_values(
    cfg: ConfigView,
    duration: Seq<char>,
    achieved: Seq<char>,
    oks: u64,
    errors: u64,
) -> Seq<Seq<char>> {
    seq![
        cfg.host + default_mark(cfg.target_def),
        cfg.port + default_mark(cfg.target_def || cfg.port_def),
        "SET/GET mix 50/50"@,
        digits(cfg.n as nat) + default_mark(cfg.n_def),
        digits(cfg.batch as nat) + default_mark(cfg.batch_def),
        if cfg.rate == 0 {
            "unlimited"@ + default_mark(cfg.rate_def)
        } else {
            digits(cfg.rate as nat) + " req/s"@ + default_mark(cfg.rate_def)
        },
        duration,
        achieved,
        digits(oks as nat) + " ok, "@ + digits(errors as nat) + " errors"@,
    ]
}

/// The summary box: a title, a top border, one row per label and value
/// (labels 10 wide, values as wide as the widest), a bottom border.
pub open spec fn summary_lines(values: Seq<Seq<char>>) -> Seq<Seq<char>> {
    let w = widest(values);
    seq!["summary:"@, "┌────────────┬─"@ + repeated('─', w) + "─┐"@] + Seq::new(
        values.len(),
        |i: int| "│ "@ + pad_right(summary_labels()[i], 10) + " │ "@ + pad_right(values[i], w) + " │"@,
    ) + seq!["└────────────┴─"@ + repeated('─', w) + "─┘"@]
}

/// On an accepted command line, the summary marks a setting with
/// " (default)" exactly when the user did not give it: the target when no
/// `-t` was given, the port when no target with a `:` was given, the
/// request count, batch size and rate when their flags were not given.
pub proof fn lemma_summary_marks(
    args: Seq<Seq<char>>,
    duration: Seq<char>,
    achieved: Seq<char>,
    oks: u64,
    errors: u64,
)
    requires
        command_line(args) is Ok,
    ensures
        ({
            let c = command_line(args).unwrap();
            let v = summary_values(c, duration, achieved, oks, errors);
            &&& v[0] == c.host + if given(args, Knob::Target, 0) is None {
                " (default)"@
            } else {
                Seq::empty()
            }
            &&& v[1] == c.port + if !port_given(args) {
                " (default)"@
            } else {
                Seq::empty()
            }
            &&& v[3] == digits(c.n as nat) + if given(args, Knob::Number, 0) is None {
                " (default)"@
            } else {
                Seq::empty()
            }
            &&& v[4] == digits(c.batch as nat) + if given(args, Knob::BatchSize, 0) is None {
                " (default)"@
            } else {
                Seq::empty()
            }
            &&& v[5] == (if c.rate == 0 {
                "unlimited"@
            } else {
                digits(c.rate as nat) + " req/s"@
            }) + if given(args, Knob::Rate, 0) is None {
                " (default)"@
            } else {
                Seq::empty()
            }
        }),
{
    lemma_defaults_follow_flags(args);
}

fn marked(out: &mut Vec<char>, d: bool)
    ensures
        final(out)@ == old(out)@ + default_mark(d),
{
    if d {
        let m = chars_of(" (default)");
        push_text(out, m.as_slice());
    } else {
        assert(old(out)@ + default_mark(d) =~= old(out)@);
    }
}

/// The values of the summary rows; `duration` and `achieved` are the
/// measured duration and request rate, already written as text.
pub fn summary_values_of(
    cfg: &Config,
    duration: &[char],
    achieved: &[char],
    oks: u64,
    errors: u64,
) -> (r: Vec<Vec<char>>)
    ensures
        texts(r@) == summary_values(cfg@, duration@, achieved@, oks, errors),
{
    let mut target: Vec<char> = Vec::new();
    push_text(&mut target, cfg.host.as_slice());
    marked(&mut target, cfg.target_def);
    let mut port: Vec<char> = Vec::new();
    push_text(&mut port, cfg.port.as_slice());
    marked(&mut port, cfg.target_def || cfg.port_def);
    let workload = chars_of("SET/GET mix 50/50");
    let mut requests = digits_of(cfg.n as u64);
    marked(&mut requests, cfg.n_def);
    let mut batch = digits_of(cfg.batch as u64);
    marked(&mut batch, cfg.batch_def);
    let mut rate: Vec<char>;
    if cfg.rate == 0 {
        rate = chars_of("unlimited");
    } else {
        rate = digits_of(cfg.rate);
        let unit = chars_of(" req/s");
        push_text(&mut rate, unit.as_slice());
    }
    marked(&mut rate, cfg.rate_def);
    let mut dur: Vec<char> = Vec::new();
    push_text(&mut dur, duration);
    let mut ach: Vec<char> = Vec::new();
    push_text(&mut ach, achieved);
    let mut replies = digits_of(oks);
    let ok_word = chars_of(" ok, ");
    push_text(&mut replies, ok_word.as_slice());
    let err_digits = digits_of(errors);
    push_text(&mut replies, err_digits.as_slice());
    let err_word = chars_of(" errors");
    push_text(&mut replies, err_word.as_slice());
    let mut out: Vec<Vec<char>> = Vec::new();
    out.push(target);
    out.push(port);
    out.push(workload);
    out.push(requests);
    out.push(batch);
    out.push(rate);
    out.push(dur);
    out.push(ach);
    out.push(replies);
    assert(texts(out@) =~= summary_values(cfg@, duration@, achieved@, oks, errors));
    out
}

fn widest_of(values: &Vec<Vec<char>>) -> (r: usize)
    ensures
        r == widest(texts(values@)),
{
    let ghost t = texts(values@);
    let mut w: usize = 0;
    let mut i: usize = 0;
    while i < values.len()
        invariant
            0 <= i <= values.len(),
            t == texts(values@),
            w == widest(t.subrange(0, i as int)),
        decreases values.len() - i,
    {
        assert(t.subrange(0, i as int + 1).drop_last() =~= t.subrange(0, i as int));
        assert(t[i as int] == values@[i as int]@);
        if values[i].len() > w {
            w = values[i].len();
        }
        i = i + 1;
    }
    assert(t.subrange(0, values@.len() as int) =~= t);
    w
}

/// Lays out the summary box around the nine summary values.
pub fn render_summary(values: &Vec<Vec<char>>) -> (r: Vec<Vec<char>>)
    requires
        values@.len() == 9,
    ensures
        texts(r@) == summary_lines(texts(values@)),
{
    let ghost t = texts(values@);
    let labels: Vec<Vec<char>> = vec![
        chars_of("target"),
        chars_of("port"),
        chars_of("workload"),
        chars_of("requests"),
        chars_of("batch size"),
        chars_of("rate"),
        chars_of("duration"),
        chars_of("achieved"),
        chars_of("replies"),
    ];
    assert(texts(labels@) =~= summary_labels());
    let w = widest_of(values);
    let mut out: Vec<Vec<char>> = Vec::new();
    out.push(chars_of("summary:"));
    let mut top = chars_of("┌────────────┬─");
    push_repeated(&mut top, '─', w);
    let top_end = chars_of("─┐");
    push_text(&mut top, top_end.as_slice());
    out.push(top);
    let ghost head = texts(out@);
    assert(head =~= seq!["summary:"@, "┌────────────┬─"@ + repeated('─', w as nat) + "─┐"@]);
    let mut i: usize = 0;
    while i < 9
        invariant
            0 <= i <= 9,
            values@.len() == 9,
            t == texts(values@),
            texts(labels@) == summary_labels(),
            labels@.len() == 9,
            w == widest(t),
            out@.len() == 2 + i,
            texts(out@) == head + Seq::new(
                i as nat,
                |j: int| "│ "@ + pad_right(summary_labels()[j], 10) + " │ "@ + pad_right(t[j], w as nat)
                    + " │"@,
            ),
        decreases 9 - i,
    {
        let mut line = chars_of("│ ");
        push_padded_right(&mut line, labels[i].as_slice(), 10);
        let sep = chars_of(" │ ");
        push_text(&mut line, sep.as_slice());
        push_padded_right(&mut line, values[i].as_slice(), w);
        let end = chars_of(" │");
        push_text(&mut line, end.as_slice());
        assert(labels@[i as int]@ == summary_labels()[i as int]);
        assert(values@[i as int]@ == t[i as int]);
        assert(line@ =~= "│ "@ + pad_right(summary_labels()[i as int], 10) + " │ "@ + pad_right(
            t[i as int],
            w as nat,
        ) + " │"@);
        let ghost before = texts(out@);
        out.push(line);
        assert(texts(out@) =~= before.push(line@));
        assert(texts(out@) =~= head + Seq::new(
            i as nat + 1,
            |j: int| "│ "@ + pad_right(summary_labels()[j], 10) + " │ "@ + pad_right(t[j], w as nat)
                + " │"@,
        ));
        i = i + 1;
    }
    let mut bottom = chars_of("└────────────┴─");
    push_repeated(&mut bottom, '─', w);
    let bottom_end = chars_of("─┘");
    push_text(&mut bottom, bottom_end.as_slice());
    let ghost before = texts(out@);
    out.push(bottom);
    assert(texts(out@) =~= before.push(bottom@));
    assert(texts(out@) =~= summary_lines(t));
    out
}

/// The headers of the latency table.
pub open spec fn latency_headers() -> Seq<Seq<char>> {
    seq!["unit"@, "min"@, "p50"@, "p90"@, "p99"@, "p99.9"@, "max"@, "avg"@]
}

/// The cells of the latency table's value row: the unit, the summary in
/// decimal, and the average as the caller wrote it.
pub open spec fn latency_cells(s: LatencySummary, avg: Seq<char>) -> Seq<Seq<char>> {
    seq![
        "µs"@,
        digits(s.min as nat),
        digits(s.p50 as nat),
        digits(s.p90 as nat),
        digits(s.p99 as nat),
        digits(s.p999 as nat),
        digits(s.max as nat),
        avg,
    ]
}

/// Each column as wide as the wider of its header and its value.
pub open spec fn column_widths(h: Seq<Seq<char>>, v: Seq<Seq<char>>) -> Seq<nat> {
    Seq::new(h.len(), |i: int| if h[i].len() >= v[i].len() { h[i].len() } else { v[i].len() })
}

/// A border line: `l`, then each column's rule (its width plus two)
/// separated by `m`, then `r`.
pub open spec fn border(l: char, m: char, r: char, ws: Seq<nat>) -> Seq<char> {
    seq![l] + joined(Seq::new(ws.len(), |i: int| repeated('─', ws[i] + 2)), seq![m]) + seq![r]
}

/// A table row: each cell right-aligned to its column, a space on each
/// side, between vertical bars.
pub open spec fn table_row(cells: Seq<Seq<char>>, ws: Seq<nat>) -> Seq<char> {
    seq!['│'] + joined(
        Seq::new(cells.len(), |i: int| seq![' '] + pad_left(cells[i], ws[i]) + seq![' ']),
        seq!['│'],
    ) + seq!['│']
}

/// The latency table: title, top border, header row, middle border, value
/// row, bottom border.
pub open spec fn table_lines(h: Seq<Seq<char>>, v: Seq<Seq<char>>) -> Seq<Seq<char>> {
    let ws = column_widths(h, v);
    seq![
        "latency:"@,
        border('┌', '┬', '┐', ws),
        table_row(h, ws),
        border('├', '┼', '┤', ws),
        table_row(v, ws),
        border('└', '┴', '┘', ws),
    ]
}

/// The cells of the latency table's value row; `avg` is the average,
/// already written as text.
pub fn latency_cells_of(s: &LatencySummary, avg: &[char]) -> (r: Vec<Vec<char>>)
    ensures
        texts(r@) == latency_cells(*s, avg@),
{
    let mut a: Vec<char> = Vec::new();
    push_text(&mut a, avg);
    let out: Vec<Vec<char>> = vec![
        chars_of("µs"),
        digits_of(s.min as u64),
        digits_of(s.p50 as u64),
        digits_of(s.p90 as u64),
        digits_of(s.p99 as u64),
        digits_of(s.p999 as u64),
        digits_of(s.max as u64),
        a,
    ];
    assert(texts(out@) =~= latency_cells(*s, avg@));
    out
}

fn widths_of(h: &Vec<Vec<char>>, v: &Vec<Vec<char>>) -> (r: Vec<usize>)
    requires
        h@.len() == v@.len(),
    ensures
        r@.len() == h@.len(),
        forall|i: int| 0 <= i < r@.len() ==> #[trigger] r@[i] as nat == column_widths(
            texts(h@),
            texts(v@),
        )[i],
{
    let mut out: Vec<usize> = Vec::new();
    let mut i: usize = 0;
    while i < h.len()
        invariant
            0 <= i <= h@.len(),
            h@.len() == v@.len(),
            out@.len() == i,
            forall|j: int| 0 <= j < i ==> #[trigger] out@[j] as nat == column_widths(
                texts(h@),
                texts(v@),
            )[j],
        decreases h.len() - i,
    {
        let a = h[i].len();
        let b = v[i].len();
        out.push(if a >= b {
            a
        } else {
            b
        });
        i = i + 1;
    }
    out
}

proof fn lemma_joined_step(parts: Seq<Seq<char>>, sep: Seq<char>, i: int)
    requires
        0 <= i < parts.len(),
    ensures
        joined(parts.subrange(0, i + 1), sep) == if i == 0 {
            parts[0]
        } else {
            joined(parts.subrange(0, i), sep) + sep + parts[i]
        },
{
    let next = parts.subrange(0, i + 1);
    assert(next.drop_last() =~= parts.subrange(0, i));
}

fn border_of(l: char, m: char, r: char, ws: &Vec<usize>) -> (out: Vec<char>)
    ensures
        out@ == border(l, m, r, ws@.map_values(|w: usize| w as nat)),
{
    let ghost wn = ws@.map_values(|w: usize| w as nat);
    let ghost parts = Seq::new(wn.len(), |i: int| repeated('─', wn[i] + 2));
    let mut out: Vec<char> = Vec::new();
    out.push(l);
    let mut i: usize = 0;
    while i < ws.len()
        invariant
            0 <= i <= ws@.len(),
            wn == ws@.map_values(|w: usize| w as nat),
            parts == Seq::new(wn.len(), |i: int| repeated('─', wn[i] + 2)),
            out@ == seq![l] + joined(parts.subrange(0, i as int), seq![m]),
        decreases ws.len() - i,
    {
        proof {
            lemma_joined_step(parts, seq![m], i as int);
        }
        if i > 0 {
            out.push(m);
        }
        push_repeated(&mut out, '─', ws[i]);
        out.push('─');
        out.push('─');
        assert(parts[i as int] =~= repeated('─', ws@[i as int] as nat) + seq!['─', '─']);
        assert(out@ =~= seq![l] + joined(parts.subrange(0, i as int + 1), seq![m]));
        i = i + 1;
    }
    assert(parts.subrange(0, ws@.len() as int) =~= parts);
    out.push(r);
    out
}

fn row_of(cells: &Vec<Vec<char>>, ws: &Vec<usize>) -> (out: Vec<char>)
    requires
        cells@.len() == ws@.len(),
    ensures
        out@ == table_row(texts(cells@), ws@.map_values(|w: usize| w as nat)),
{
    let ghost wn = ws@.map_values(|w: usize| w as nat);
    let ghost t = texts(cells@);
    let ghost parts = Seq::new(t.len(), |i: int| seq![' '] + pad_left(t[i], wn[i]) + seq![' ']);
    let mut out: Vec<char> = Vec::new();
    out.push('│');
    let mut i: usize = 0;
    while i < cells.len()
        invariant
            0 <= i <= cells@.len(),
            cells@.len() == ws@.len(),
            wn == ws@.map_values(|w: usize| w as nat),
            t == texts(cells@),
            parts == Seq::new(t.len(), |i: int| seq![' '] + pad_left(t[i], wn[i]) + seq![' ']),
            out@ == seq!['│'] + joined(parts.subrange(0, i as int), seq!['│']),
        decreases cells.len() - i,
    {
        proof {
            lemma_joined_step(parts, seq!['│'], i as int);
        }
        if i > 0 {
            out.push('│');
        }
        out.push(' ');
        push_padded_left(&mut out, cells[i].as_slice(), ws[i]);
        out.push(' ');
        assert(t[i as int] == cells@[i as int]@);
        assert(out@ =~= seq!['│'] + joined(parts.subrange(0, i as int + 1), seq!['│']));
        i = i + 1;
    }
    assert(parts.subrange(0, cells@.len() as int) =~= parts);
    out.push('│');
    out
}

/// Lays out the latency table: each column as wide as the wider of its
/// header and its value.
pub fn render_latency_table(headers: &Vec<Vec<char>>, values: &Vec<Vec<char>>) -> (r: Vec<
    Vec<char>,
>)
    requires
        headers@.len() == values@.len(),
    ensures
        texts(r@) == table_lines(texts(headers@), texts(values@)),
{
    let ws = widths_of(headers, values);
    let ghost wn = ws@.map_values(|w: usize| w as nat);
    assert(wn =~= column_widths(texts(headers@), texts(values@)));
    let mut out: Vec<Vec<char>> = Vec::new();
    out.push(chars_of("latency:"));
    out.push(border_of('┌', '┬', '┐', &ws));
    out.push(row_of(headers, &ws));
    out.push(border_of('├', '┼', '┤', &ws));
    out.push(row_of(values, &ws));
    out.push(border_of('└', '┴', '┘', &ws));
    assert(texts(out@) =~= table_lines(texts(headers@), texts(values@)));
    out
}

/// The headers of the latency table, as text.
pub fn latency_headers_of() -> (r: Vec<Vec<char>>)
    ensures
        texts(r@) == latency_headers(),
{
    let out: Vec<Vec<char>> = vec![
        chars_of("unit"),
        chars_of("min"),
        chars_of("p50"),
        chars_of("p90"),
        chars_of("p99"),
        chars_of("p99.9"),
        chars_of("max"),
        chars_of("avg"),
    ];
    assert(texts(out@) =~= latency_headers());
    out
}

/// Every line of the summary box below its title has the same
/// width, whatever the values: the value column widens to the widest value.
pub proof fn lemma_summary_box_aligned(values: Seq<Seq<char>>)
    requires
        values.len() <= 9,
    ensures
        forall|i: int|
            1 <= i < summary_lines(values).len() ==> #[trigger] summary_lines(values)[i].len() == 17
                + widest(values),
{
    lemma_widest(values);
    reveal_strlit("┌────────────┬─");
    reveal_strlit("─┐");
    reveal_strlit("└────────────┴─");
    reveal_strlit("─┘");
    reveal_strlit("│ ");
    reveal_strlit(" │ ");
    reveal_strlit(" │");
    reveal_strlit("target");
    reveal_strlit("port");
    reveal_strlit("workload");
    reveal_strlit("requests");
    reveal_strlit("batch size");
    reveal_strlit("rate");
    reveal_strlit("duration");
    reveal_strlit("achieved");
    reveal_strlit("replies");
    let lines = summary_lines(values);
    let w = widest(values);
    assert forall|i: int| 1 <= i < lines.len() implies #[trigger] lines[i].len() == 17 + w by {
        if 2 <= i < 2 + values.len() {
            let j = i - 2;
            assert(summary_labels()[j].len() <= 10);
            assert(values[j].len() <= w);
        }
    }
}

/// The total length of the parts.
pub open spec fn total_len(parts: Seq<Seq<char>>) -> nat
    decreases parts.len(),
{
    if parts.len() == 0 {
        0
    } else {
        total_len(parts.drop_last()) + parts.last().len()
    }
}

proof fn lemma_joined_len(parts: Seq<Seq<char>>, sep: Seq<char>)
    ensures
        parts.len() > 0 ==> joined(parts, sep).len() == total_len(parts) + (parts.len() - 1)
            * sep.len(),
    decreases parts.len(),
{
    if parts.len() > 1 {
        let init = parts.drop_last();
        lemma_joined_len(init, sep);
        let n = parts.len() as int;
        let k = sep.len() as int;
        assert((n - 2) * k + k == (n - 1) * k) by (nonlinear_arith);
        assert(joined(parts, sep).len() == joined(init, sep).len() + k + parts.last().len());
        assert(total_len(parts) == total_len(init) + parts.last().len());
        assert(joined(init, sep).len() == total_len(init) + (n - 2) * k);
    } else if parts.len() == 1 {
        assert(parts.drop_last().len() == 0);
        assert(total_len(parts.drop_last()) == 0);
        assert(parts.last() == parts[0]);
    }
}

proof fn lemma_total_len_eq(p: Seq<Seq<char>>, q: Seq<Seq<char>>)
    requires
        p.len() == q.len(),
        forall|i: int| 0 <= i < p.len() ==> #[trigger] p[i].len() == q[i].len(),
    ensures
        total_len(p) == total_len(q),
    decreases p.len(),
{
    if p.len() > 0 {
        let (pi, qi) = (p.drop_last(), q.drop_last());
        assert forall|i: int| 0 <= i < pi.len() implies #[trigger] pi[i].len() == qi[i].len() by {
            assert(pi[i] == p[i]);
            assert(qi[i] == q[i]);
        }
        lemma_total_len_eq(pi, qi);
        assert(p.last().len() == q.last().len());
    }
}

/// The columns' rules together: each column's width plus its two spaces.
pub open spec fn rules_width(ws: Seq<nat>) -> nat
    decreases ws.len(),
{
    if ws.len() == 0 {
        0
    } else {
        rules_width(ws.drop_last()) + ws.last() + 2
    }
}

proof fn lemma_rules_len(ws: Seq<nat>)
    ensures
        total_len(Seq::new(ws.len(), |i: int| repeated('─', ws[i] + 2))) == rules_width(ws),
    decreases ws.len(),
{
    if ws.len() > 0 {
        let init = ws.drop_last();
        lemma_rules_len(init);
        let p = Seq::new(ws.len(), |i: int| repeated('─', ws[i] + 2));
        assert(p.drop_last() =~= Seq::new(init.len(), |i: int| repeated('─', init[i] + 2)));
    }
}

/// The borders and rows of the latency table all have the same width,
/// whatever the values: each column widens to the wider of its header and
/// its value, so no value breaks the frame. That width is a bar at each
/// end and between columns, plus each column's width and two spaces.
pub proof fn lemma_table_aligned(h: Seq<Seq<char>>, v: Seq<Seq<char>>)
    requires
        h.len() == v.len(),
        h.len() > 0,
    ensures
        ({
            let lines = table_lines(h, v);
            &&& lines[1].len() == h.len() + 1 + rules_width(column_widths(h, v))
            &&& lines[2].len() == lines[1].len()
            &&& lines[3].len() == lines[1].len()
            &&& lines[4].len() == lines[1].len()
            &&& lines[5].len() == lines[1].len()
        }),
{
    let ws = column_widths(h, v);
    let border_parts = Seq::new(ws.len(), |i: int| repeated('─', ws[i] + 2));
    let hp = Seq::new(h.len(), |i: int| seq![' '] + pad_left(h[i], ws[i]) + seq![' ']);
    let vp = Seq::new(v.len(), |i: int| seq![' '] + pad_left(v[i], ws[i]) + seq![' ']);
    assert forall|i: int| 0 <= i < hp.len() implies #[trigger] hp[i].len() == border_parts[i].len() by {
        assert(h[i].len() <= ws[i]);
    }
    assert forall|i: int| 0 <= i < vp.len() implies #[trigger] vp[i].len() == border_parts[i].len() by {
        assert(v[i].len() <= ws[i]);
    }
    lemma_total_len_eq(hp, border_parts);
    lemma_total_len_eq(vp, border_parts);
    lemma_joined_len(border_parts, seq!['┬']);
    lemma_joined_len(border_parts, seq!['┼']);
    lemma_joined_len(border_parts, seq!['┴']);
    lemma_joined_len(hp, seq!['│']);
    lemma_joined_len(vp, seq!['│']);
    lemma_rules_len(ws);
    assert(ws.len() == h.len());
    assert(table_lines(h, v)[1] == border('┌', '┬', '┐', ws));
    assert(border('┌', '┬', '┐', ws).len() == joined(border_parts, seq!['┬']).len() + 2);
    assert(border_parts =~= Seq::new(ws.len(), |i: int| repeated('─', ws[i] + 2)));
    assert(total_len(border_parts) == rules_width(ws));
    assert(seq!['┬'].len() == 1);
    let sep_len = seq!['┬'].len();
    let n = border_parts.len() as int;
    assert((n - 1) * sep_len == n - 1) by (nonlinear_arith)
        requires
            sep_len == 1,
    ;
    assert(joined(border_parts, seq!['┬']).len() == rules_width(ws) + (h.len() - 1));
}

/// The labels of the histogram buckets, 9 characters each.
pub open spec fn bucket_labels() -> Seq<Seq<char>> {
    seq![
        "   <50µs "@,
        " 50-100µs"@,
        "100-200µs"@,
        "200-500µs"@,
        " 0.5-1ms "@,
        "  1-2ms  "@,
        "  2-5ms  "@,
        " 5-10ms  "@,
        "  >10ms  "@,
    ]
}

/// The width of the bar column.
pub const BAR_WIDTH: usize = 50;

/// A histogram row: the bucket's label, its bar padded to the bar column,
/// its share as the caller wrote it, and a percent sign.
pub open spec fn histogram_row(label: Seq<char>, count: nat, total: nat, pct: Seq<char>) -> Seq<
    char,
> {
    "│ "@ + label + " │ "@ + pad_right(bar_text(count, total), 50) + " │ "@ + pct + "% │"@
}

/// The rows of the buckets `0..k` that hold any latency.
pub open spec fn histogram_rows(counts: Seq<u64>, total: nat, pcts: Seq<Seq<char>>, k: int) -> Seq<
    Seq<char>,
>
    decreases k,
{
    if k <= 0 {
        Seq::empty()
    } else {
        histogram_rows(counts, total, pcts, k - 1) + if counts[k - 1] != 0 {
            seq![histogram_row(bucket_labels()[k - 1], counts[k - 1] as nat, total, pcts[k - 1])]
        } else {
            Seq::empty()
        }
    }
}

/// The histogram: title, top border, a row per non-empty bucket, bottom
/// border.
pub open spec fn histogram_lines(counts: Seq<u64>, total: nat, pcts: Seq<Seq<char>>) -> Seq<
    Seq<char>,
> {
    seq!["histogram:"@, "┌───────────┬"@ + repeated('─', 52) + "┬────────┐"@] + histogram_rows(
        counts,
        total,
        pcts,
        BUCKETS as int,
    ) + seq!["└───────────┴"@ + repeated('─', 52) + "┴────────┘"@]
}

fn bucket_label_of(i: usize) -> (r: Vec<char>)
    requires
        i < BUCKETS,
    ensures
        r@ == bucket_labels()[i as int],
{
    if i == 0 {
        chars_of("   <50µs ")
    } else if i == 1 {
        chars_of(" 50-100µs")
    } else if i == 2 {
        chars_of("100-200µs")
    } else if i == 3 {
        chars_of("200-500µs")
    } else if i == 4 {
        chars_of(" 0.5-1ms ")
    } else if i == 5 {
        chars_of("  1-2ms  ")
    } else if i == 6 {
        chars_of("  2-5ms  ")
    } else if i == 7 {
        chars_of(" 5-10ms  ")
    } else {
        chars_of("  >10ms  ")
    }
}

/// Lays out the histogram of the bucket counts out of `total` latencies;
/// `pcts` holds each bucket's share, already written as text.
pub fn render_histogram(counts: &Vec<u64>, total: u64, pcts: &Vec<Vec<char>>) -> (r: Vec<Vec<char>>)
    requires
        counts@.len() == BUCKETS,
        pcts@.len() == BUCKETS,
        forall|i: int| 0 <= i < BUCKETS ==> #[trigger] counts@[i] <= total,
    ensures
        texts(r@) == histogram_lines(counts@, total as nat, texts(pcts@)),
{
    let ghost p = texts(pcts@);
    let mut out: Vec<Vec<char>> = Vec::new();
    out.push(chars_of("histogram:"));
    let mut top = chars_of("┌───────────┬");
    push_repeated(&mut top, '─', BAR_WIDTH + 2);
    let top_end = chars_of("┬────────┐");
    push_text(&mut top, top_end.as_slice());
    out.push(top);
    let ghost head = texts(out@);
    assert(head =~= seq!["histogram:"@, "┌───────────┬"@ + repeated('─', 52) + "┬────────┐"@]);
    let mut i: usize = 0;
    while i < BUCKETS
        invariant
            0 <= i <= BUCKETS,
            counts@.len() == BUCKETS,
            pcts@.len() == BUCKETS,
            p == texts(pcts@),
            forall|i: int| 0 <= i < BUCKETS ==> #[trigger] counts@[i] <= total,
            texts(out@) == head + histogram_rows(counts@, total as nat, p, i as int),
        decreases BUCKETS - i,
    {
        if counts[i] != 0 {
            let mut line = chars_of("│ ");
            let label = bucket_label_of(i);
            push_text(&mut line, label.as_slice());
            let sep = chars_of(" │ ");
            push_text(&mut line, sep.as_slice());
            let b = bar(counts[i], total);
            push_padded_right(&mut line, b.as_slice(), BAR_WIDTH);
            push_text(&mut line, sep.as_slice());
            push_text(&mut line, pcts[i].as_slice());
            let end = chars_of("% │");
            push_text(&mut line, end.as_slice());
            assert(p[i as int] == pcts@[i as int]@);
            assert(line@ =~= histogram_row(
                bucket_labels()[i as int],
                counts@[i as int] as nat,
                total as nat,
                p[i as int],
            ));
            let ghost before = texts(out@);
            out.push(line);
            assert(texts(out@) =~= before.push(line@));
            assert(texts(out@) =~= head + histogram_rows(counts@, total as nat, p, i as int + 1));
        } else {
            assert(histogram_rows(counts@, total as nat, p, i as int + 1) =~= histogram_rows(
                counts@,
                total as nat,
                p,
                i as int,
            ));
        }
        i = i + 1;
    }
    let mut bottom = chars_of("└───────────┴");
    push_repeated(&mut bottom, '─', BAR_WIDTH + 2);
    let bottom_end = chars_of("┴────────┘");
    push_text(&mut bottom, bottom_end.as_slice());
    let ghost before = texts(out@);
    out.push(bottom);
    assert(texts(out@) =~= before.push(bottom@));
    assert(texts(out@) =~= histogram_lines(counts@, total as nat, p));
    out
}

} // verus!
