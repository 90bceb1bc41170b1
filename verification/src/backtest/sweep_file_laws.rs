//! What holds of a sweep file whatever sweep it holds.
use crate::backtest::figure::{stands_alone, Figure};
use crate::backtest::lines::{
    cleaned, fields_of, head_of, is_line, joined, lacks, law_joined_lines_are_lines,
    law_parted_fields_are_fields, lemma_cleaned, lemma_count_reads_back, lemma_field_first,
    lemma_lacks_join, lemma_parted_lacks, lines_of, parted, tail_of, trimmed,
};
use crate::backtest::run::RunResult;
use crate::backtest::sweep::{PboReport, RefusalView, SweepReport, Thresholds};
use crate::backtest::sweep_file::{
    blank, config_fields, config_line, config_lines, drafted, every_line, gives_reason, header_line,
    in_currency, label_line, logits_in, lookahead_lines, lookahead_text, parsed, pbo_lines,
    plain_texts, refusal_line, refusal_lines, row_in, sharpe_at, sharpe_line, sheet, thresholds_in,
    thresholds_line, unscorable_lines, DraftView, FileView, PboView, RowView, VERSION,
};
use crate::text::digits;
use crate::types::Ratio;
use vstd::prelude::*;

verus! {

/// Whether a figure, written out, stands in a line as one field and is read
/// back as it was.
pub open spec fn writes_back<F: Figure>(x: F) -> bool {
    stands_alone(x.plain_text()) && F::spelled(x.plain_text()) == Some(x)
}

/// Whether every figure of a row is a number.
pub open spec fn row_of_numbers<F: Figure>(result: RunResult, sharpe: Option<F>) -> bool {
    &&& in_currency::<F>(result.realized).is_number()
    &&& in_currency::<F>(result.fees_paid).is_number()
    &&& in_currency::<F>(result.final_equity).is_number()
    &&& in_currency::<F>(result.min_equity).is_number()
    &&& sharpe matches Some(s) ==> s.is_number()
}

/// Whether every figure of a sweep is a number.
pub open spec fn all_numbers<F: Figure>(
    report: SweepReport<F>,
    t: Thresholds<F>,
    sharpes: Seq<Option<F>>,
) -> bool {
    &&& t.max_pbo.is_number()
    &&& t.min_deflated_sharpe.is_number()
    &&& t.min_degradation_slope.is_number()
    &&& report.deflated_sharpe matches Ok(d) ==> d.is_number()
    &&& report.pbo matches Ok(p) ==> {
        &&& p.pbo.is_number()
        &&& p.probability_of_loss.is_number()
        &&& p.median_oos_sharpe.is_number()
        &&& p.performance_degradation.is_number()
        &&& forall|i: int| 0 <= i < p.logits@.len() ==> (#[trigger] p.logits@[i]).is_number()
    }
    &&& forall|i: int|
        0 <= i < report.results@.len() ==> row_of_numbers(
            (#[trigger] report.results@[i]).1,
            sharpe_at(sharpes, i),
        )
}

/// Whether every figure of a row writes back.
spec fn row_writes_back<F: Figure>(result: RunResult, sharpe: Option<F>) -> bool {
    &&& writes_back(in_currency::<F>(result.realized))
    &&& writes_back(in_currency::<F>(result.fees_paid))
    &&& writes_back(in_currency::<F>(result.final_equity))
    &&& writes_back(in_currency::<F>(result.min_equity))
    &&& sharpe matches Some(s) ==> writes_back(s)
}

/// Whether every figure of a sweep writes back.
spec fn all_write_back<F: Figure>(
    report: SweepReport<F>,
    t: Thresholds<F>,
    sharpes: Seq<Option<F>>,
) -> bool {
    &&& writes_back(t.max_pbo)
    &&& writes_back(t.min_deflated_sharpe)
    &&& writes_back(t.min_degradation_slope)
    &&& report.deflated_sharpe matches Ok(d) ==> writes_back(d)
    &&& report.pbo matches Ok(p) ==> {
        &&& writes_back(p.pbo)
        &&& writes_back(p.probability_of_loss)
        &&& writes_back(p.median_oos_sharpe)
        &&& writes_back(p.performance_degradation)
        &&& forall|i: int| 0 <= i < p.logits@.len() ==> writes_back(#[trigger] p.logits@[i])
    }
    &&& forall|i: int|
        0 <= i < report.results@.len() ==> row_writes_back(
            (#[trigger] report.results@[i]).1,
            sharpe_at(sharpes, i),
        )
}

/// What a sweep's file says of a run.
pub open spec fn row_of<F: Figure>(
    label: Seq<char>,
    result: RunResult,
    sharpe: Option<F>,
) -> RowView<F> {
    RowView {
        label: cleaned(label),
        fills: result.fills@.len() as usize,
        realized: in_currency::<F>(result.realized),
        fees: in_currency::<F>(result.fees_paid),
        final_equity: in_currency::<F>(result.final_equity),
        min_equity: in_currency::<F>(result.min_equity),
        liquidations: result.liquidations@.len() as usize,
        sharpe,
    }
}

/// What a sweep's file says of it.
pub open spec fn file_of<F: Figure>(
    label: Seq<char>,
    report: SweepReport<F>,
    t: Thresholds<F>,
    sharpes: Seq<Option<F>>,
) -> FileView<F> {
    FileView {
        label: cleaned(label),
        equity_every: report.equity_every,
        thresholds: (t.max_pbo, t.min_deflated_sharpe, t.min_degradation_slope),
        deflated_sharpe: match report.deflated_sharpe {
            Ok(d) => Ok(d),
            Err(why) => Err(cleaned(why@)),
        },
        pbo: match report.pbo {
            Ok(p) => Ok(
                PboView {
                    pbo: p.pbo,
                    splits: p.n_splits,
                    probability_of_loss: p.probability_of_loss,
                    median_oos_sharpe: p.median_oos_sharpe,
                    degradation: p.performance_degradation,
                    logits: p.logits@,
                },
            ),
            Err(why) => Err(cleaned(why@)),
        },
        refusals: report.reasons(t).map_values(|r: RefusalView<F>| cleaned(r.text())),
        configs: Seq::new(
            report.results@.len(),
            |i: int| row_of(report.results@[i].0@, report.results@[i].1, sharpe_at(sharpes, i)),
        ),
        unscorable: report.unscorable@.map_values(|l: String| cleaned(l@)),
        lookahead: match report.lookahead {
            Some((l, check)) => Some((cleaned(l@), lookahead_text(check))),
            None => None,
        },
    }
}

/// The names of lines are different names.
proof fn lemma_keys()
    ensures
        "label"@.len() == 5,
        "equity-every"@.len() == 12,
        "thresholds"@.len() == 10,
        "thresholds"@[0] == 't',
        "deflated-sharpe"@.len() == 15,
        "pbo"@.len() == 3,
        "logits"@.len() == 6,
        "logits"@[0] == 'l',
        "refusal"@.len() == 7,
        "unscorable"@.len() == 10,
        "unscorable"@[0] == 'u',
        "lookahead"@.len() == 9,
        "config"@.len() == 6,
        "config"@[0] == 'c',
        ""@.len() == 0,
{
    reveal_strlit("label");
    reveal_strlit("equity-every");
    reveal_strlit("thresholds");
    reveal_strlit("deflated-sharpe");
    reveal_strlit("pbo");
    reveal_strlit("logits");
    reveal_strlit("refusal");
    reveal_strlit("unscorable");
    reveal_strlit("lookahead");
    reveal_strlit("config");
    reveal_strlit("");
}

/// A name, a space and the rest are split where they were joined.
proof fn lemma_named(named: Seq<char>, key: Seq<char>, rest: Seq<char>)
    requires
        named == key.push(' '),
        lacks(key, ' '),
        is_line(key),
        is_line(rest),
    ensures
        head_of(named + rest, ' ') == key,
        tail_of(named + rest, ' ') == rest,
        is_line(named + rest),
{
    lemma_field_first(key, ' ', rest);
    lemma_lacks_join(named, rest, '\n');
    lemma_lacks_join(named, rest, '\r');
}

proof fn lemma_label<F: Figure>(d: DraftView<F>, label: Seq<char>, n: nat)
    ensures
        d.after(label_line(label), n) == Ok::<DraftView<F>, Seq<char>>(
            DraftView { file: FileView { label: cleaned(label), ..d.file }, ..d },
        ),
        is_line(label_line(label)),
{
    reveal(DraftView::after);
    reveal_strlit("label ");
    reveal_strlit("label");
    lemma_cleaned(label);
    assert("label "@ =~= "label"@.push(' '));
    lemma_named("label "@, "label"@, cleaned(label));
}

proof fn lemma_every<F: Figure>(d: DraftView<F>, every: usize, n: nat)
    ensures
        d.after(every_line(every), n) == Ok::<DraftView<F>, Seq<char>>(
            DraftView { file: FileView { equity_every: every, ..d.file }, ..d },
        ),
        is_line(every_line(every)),
{
    reveal(DraftView::after);
    lemma_keys();
    reveal_strlit("equity-every ");
    reveal_strlit("equity-every");
    lemma_count_reads_back(every);
    assert("equity-every "@ =~= "equity-every"@.push(' '));
    lemma_named("equity-every "@, "equity-every"@, digits(every as nat));
}

proof fn lemma_thresholds<F: Figure>(d: DraftView<F>, t: Thresholds<F>, n: nat)
    requires
        writes_back(t.max_pbo),
        writes_back(t.min_deflated_sharpe),
        writes_back(t.min_degradation_slope),
    ensures
        d.after(thresholds_line(t), n) == Ok::<DraftView<F>, Seq<char>>(
            DraftView {
                file: FileView {
                    thresholds: (t.max_pbo, t.min_deflated_sharpe, t.min_degradation_slope),
                    ..d.file
                },
                ..d
            },
        ),
        is_line(thresholds_line(t)),
{
    reveal_strlit("thresholds ");
    reveal_strlit("thresholds");
    let fields = seq![
        t.max_pbo.plain_text(),
        t.min_deflated_sharpe.plain_text(),
        t.min_degradation_slope.plain_text(),
    ];
    law_parted_fields_are_fields(fields, ' ');
    lemma_parted_lacks(fields, ' ', '\n');
    lemma_parted_lacks(fields, ' ', '\r');
    assert("thresholds "@ =~= "thresholds"@.push(' '));
    let rest = parted(fields, ' ');
    lemma_named("thresholds "@, "thresholds"@, rest);
    let told = (t.max_pbo, t.min_deflated_sharpe, t.min_degradation_slope);
    assert(thresholds_in::<F>(rest, n) == Ok::<(F, F, F), Seq<char>>(told));
    assert(d.after(thresholds_line(t), n) == Ok::<DraftView<F>, Seq<char>>(
        DraftView { file: FileView { thresholds: told, ..d.file }, ..d },
    )) by {
        lemma_keys();
        reveal(DraftView::after);
    }
}

proof fn lemma_reason(why: Seq<char>)
    ensures
        gives_reason("- "@ + cleaned(why)),
        ("- "@ + cleaned(why)).subrange(2, ("- "@ + cleaned(why)).len() as int) == cleaned(why),
        is_line("- "@ + cleaned(why)),
{
    reveal_strlit("- ");
    lemma_cleaned(why);
    lemma_lacks_join("- "@, cleaned(why), '\n');
    lemma_lacks_join("- "@, cleaned(why), '\r');
    assert(("- "@ + cleaned(why)).subrange(2, ("- "@ + cleaned(why)).len() as int) =~= cleaned(
        why,
    ));
}

proof fn lemma_sharpe<F: Figure>(d: DraftView<F>, s: Result<F, String>, n: nat)
    requires
        s matches Ok(x) ==> writes_back(x),
    ensures
        d.after(sharpe_line(s), n) == Ok::<DraftView<F>, Seq<char>>(
            DraftView {
                file: FileView {
                    deflated_sharpe: match s {
                        Ok(x) => Ok(x),
                        Err(why) => Err(cleaned(why@)),
                    },
                    ..d.file
                },
                ..d
            },
        ),
        is_line(sharpe_line(s)),
{
    reveal(DraftView::after);
    lemma_keys();
    reveal_strlit("deflated-sharpe ");
    reveal_strlit("deflated-sharpe");
    assert("deflated-sharpe "@ =~= "deflated-sharpe"@.push(' '));
    match s {
        Ok(x) => {
            lemma_named("deflated-sharpe "@, "deflated-sharpe"@, x.plain_text());
        },
        Err(why) => {
            lemma_reason(why@);
            lemma_named("deflated-sharpe "@, "deflated-sharpe"@, "- "@ + cleaned(why@));
        },
    }
}

proof fn lemma_no_pbo<F: Figure>(d: DraftView<F>, why: Seq<char>, n: nat)
    ensures
        d.after("pbo "@ + ("- "@ + cleaned(why)), n) == Ok::<DraftView<F>, Seq<char>>(
            DraftView { file: FileView { pbo: Err(cleaned(why)), ..d.file }, ..d },
        ),
        is_line("pbo "@ + ("- "@ + cleaned(why))),
{
    reveal(DraftView::after);
    lemma_keys();
    reveal_strlit("pbo ");
    reveal_strlit("pbo");
    assert("pbo "@ =~= "pbo"@.push(' '));
    lemma_reason(why);
    lemma_named("pbo "@, "pbo"@, "- "@ + cleaned(why));
}

proof fn lemma_pbo<F: Figure>(d: DraftView<F>, p: PboReport<F>, n: nat)
    requires
        writes_back(p.pbo),
        writes_back(p.probability_of_loss),
        writes_back(p.median_oos_sharpe),
        writes_back(p.performance_degradation),
    ensures
        d.after(pbo_lines(Ok(p))[0], n) == Ok::<DraftView<F>, Seq<char>>(
            DraftView {
                file: FileView {
                    pbo: Ok(
                        PboView {
                            pbo: p.pbo,
                            splits: p.n_splits,
                            probability_of_loss: p.probability_of_loss,
                            median_oos_sharpe: p.median_oos_sharpe,
                            degradation: p.performance_degradation,
                            logits: Seq::empty(),
                        },
                    ),
                    ..d.file
                },
                ..d
            },
        ),
        is_line(pbo_lines(Ok(p))[0]),
{
    reveal(DraftView::after);
    lemma_keys();
    reveal_strlit("pbo ");
    reveal_strlit("pbo");
    assert("pbo "@ =~= "pbo"@.push(' '));
    lemma_count_reads_back(p.n_splits);
    let fields = seq![
        p.pbo.plain_text(),
        digits(p.n_splits as nat),
        p.probability_of_loss.plain_text(),
        p.median_oos_sharpe.plain_text(),
        p.performance_degradation.plain_text(),
    ];
    law_parted_fields_are_fields(fields, ' ');
    lemma_parted_lacks(fields, ' ', '\n');
    lemma_parted_lacks(fields, ' ', '\r');
    let rest = parted(fields, ' ');
    lemma_named("pbo "@, "pbo"@, rest);
    // The first field is a figure, and no figure is a lone dash.
    assert(!gives_reason(rest)) by {
        reveal_strlit("-");
        let first = fields[0];
        assert(rest == first.push(' ') + parted(fields.drop_first(), ' '));
        if gives_reason(rest) {
            assert(rest[0] == first[0]);
            if first.len() > 1 {
                assert(rest[1] == first[1]);
            } else {
                assert(first =~= "-"@);
            }
        }
    }
}

proof fn lemma_plain_texts<F: Figure>(xs: Seq<F>, n: nat)
    requires
        forall|i: int| 0 <= i < xs.len() ==> writes_back(#[trigger] xs[i]),
    ensures
        logits_in::<F>(plain_texts(xs), n) == Ok::<Seq<F>, Seq<char>>(xs),
    decreases xs.len(),
{
    if xs.len() == 0 {
        assert(xs =~= Seq::<F>::empty());
    } else {
        let front = xs.drop_last();
        assert forall|i: int| 0 <= i < front.len() implies writes_back(#[trigger] front[i]) by {
            assert(front[i] == xs[i]);
        }
        lemma_plain_texts(front, n);
        assert(plain_texts(xs).drop_last() =~= plain_texts(front));
        assert(plain_texts(xs).last() == xs.last().plain_text());
        assert(writes_back(xs[xs.len() - 1]));
        assert(front.push(xs.last()) =~= xs);
    }
}

proof fn lemma_logits<F: Figure>(d: DraftView<F>, p: PboReport<F>, n: nat)
    requires
        forall|i: int| 0 <= i < p.logits@.len() ==> writes_back(#[trigger] p.logits@[i]),
    ensures
        d.after(pbo_lines(Ok(p))[1], n) == Ok::<DraftView<F>, Seq<char>>(
            DraftView { logits: p.logits@, ..d },
        ),
        is_line(pbo_lines(Ok(p))[1]),
{
    reveal(DraftView::after);
    lemma_keys();
    reveal_strlit("logits ");
    reveal_strlit("logits");
    assert("logits "@ =~= "logits"@.push(' '));
    let xs = p.logits@;
    let fields = plain_texts(xs);
    assert forall|i: int| 0 <= i < fields.len() implies lacks(#[trigger] fields[i], ' ') && lacks(
        fields[i],
        '\n',
    ) && lacks(fields[i], '\r') by {
        assert(writes_back(xs[i]));
    }
    lemma_parted_lacks(fields, ' ', '\n');
    lemma_parted_lacks(fields, ' ', '\r');
    let rest = parted(fields, ' ');
    lemma_named("logits "@, "logits"@, rest);
    lemma_plain_texts(xs, n);
    if fields.len() == 0 {
        crate::backtest::lines::lemma_field_last(rest, ' ');
        let one = fields_of(rest, ' ');
        assert(one.drop_last() =~= Seq::<Seq<char>>::empty());
        assert(logits_in::<F>(one.drop_last(), n) == Ok::<Seq<F>, Seq<char>>(Seq::empty()));
        assert(xs =~= Seq::<F>::empty());
    } else {
        law_parted_fields_are_fields(fields, ' ');
    }
}

proof fn lemma_refusal<F: Figure>(d: DraftView<F>, r: RefusalView<F>, n: nat)
    ensures
        d.after(refusal_line(r), n) == Ok::<DraftView<F>, Seq<char>>(
            DraftView {
                file: FileView { refusals: d.file.refusals.push(cleaned(r.text())), ..d.file },
                ..d
            },
        ),
        is_line(refusal_line(r)),
{
    reveal(DraftView::after);
    lemma_keys();
    reveal_strlit("refusal ");
    reveal_strlit("refusal");
    assert("refusal "@ =~= "refusal"@.push(' '));
    lemma_cleaned(r.text());
    lemma_named("refusal "@, "refusal"@, cleaned(r.text()));
}

proof fn lemma_unscorable<F: Figure>(d: DraftView<F>, label: Seq<char>, n: nat)
    ensures
        d.after("unscorable "@ + cleaned(label), n) == Ok::<DraftView<F>, Seq<char>>(
            DraftView {
                file: FileView { unscorable: d.file.unscorable.push(cleaned(label)), ..d.file },
                ..d
            },
        ),
        is_line("unscorable "@ + cleaned(label)),
{
    reveal(DraftView::after);
    lemma_keys();
    reveal_strlit("unscorable ");
    reveal_strlit("unscorable");
    assert("unscorable "@ =~= "unscorable"@.push(' '));
    lemma_cleaned(label);
    lemma_named("unscorable "@, "unscorable"@, cleaned(label));
}

proof fn lemma_lookahead<F: Figure>(
    d: DraftView<F>,
    label: Seq<char>,
    verdict: Seq<char>,
    n: nat,
)
    requires
        is_line(verdict),
    ensures
        d.after("lookahead "@ + parted(seq![cleaned(label), verdict], '\t'), n) == Ok::<
            DraftView<F>,
            Seq<char>,
        >(
            DraftView {
                file: FileView { lookahead: Some((cleaned(label), verdict)), ..d.file },
                ..d
            },
        ),
        is_line("lookahead "@ + parted(seq![cleaned(label), verdict], '\t')),
{
    reveal(DraftView::after);
    lemma_keys();
    reveal_strlit("lookahead ");
    reveal_strlit("lookahead");
    assert("lookahead "@ =~= "lookahead"@.push(' '));
    lemma_cleaned(label);
    let fields = seq![cleaned(label), verdict];
    lemma_parted_lacks(fields, '\t', '\n');
    lemma_parted_lacks(fields, '\t', '\r');
    reveal_with_fuel(parted, 2);
    assert(fields.drop_first() =~= seq![verdict]);
    assert(parted(fields, '\t') == cleaned(label).push('\t') + verdict);
    lemma_field_first(cleaned(label), '\t', verdict);
    lemma_named("lookahead "@, "lookahead"@, parted(fields, '\t'));
}

proof fn lemma_config<F: Figure>(
    d: DraftView<F>,
    label: Seq<char>,
    result: RunResult,
    sharpe: Option<F>,
    n: nat,
)
    requires
        row_writes_back(result, sharpe),
    ensures
        d.after(config_line(label, result, sharpe), n) == Ok::<DraftView<F>, Seq<char>>(
            DraftView {
                file: FileView {
                    configs: d.file.configs.push(row_of(label, result, sharpe)),
                    ..d.file
                },
                ..d
            },
        ),
        is_line(config_line(label, result, sharpe)),
{
    reveal(DraftView::after);
    lemma_keys();
    reveal_strlit("config ");
    reveal_strlit("config");
    reveal_strlit("-");
    assert("config "@ =~= "config"@.push(' '));
    lemma_cleaned(label);
    lemma_count_reads_back(result.fills.len());
    lemma_count_reads_back(result.liquidations.len());
    let fields = config_fields(label, result, sharpe);
    assert(lacks("-"@, '\t') && is_line("-"@));
    lemma_parted_lacks(fields, '\t', '\n');
    lemma_parted_lacks(fields, '\t', '\r');
    law_parted_fields_are_fields(fields, '\t');
    let rest = parted(fields, '\t');
    lemma_named("config "@, "config"@, rest);
    assert(row_in::<F>(rest, n) == Ok::<RowView<F>, Seq<char>>(row_of(label, result, sharpe)));
}

proof fn lemma_header()
    ensures
        trimmed(header_line()) == header_line(),
        is_line(header_line()),
{
    reveal_strlit("openquanter-sweep ");
    reveal_strlit("1");
    let h = header_line();
    assert(h[0] == 'o');
    assert(h.last() == '1');
    lemma_lacks_join("openquanter-sweep "@, VERSION@, '\n');
    lemma_lacks_join("openquanter-sweep "@, VERSION@, '\r');
}

/// One more line that can be read.
proof fn lemma_step<F: Figure>(
    lines: Seq<Seq<char>>,
    l: Seq<char>,
    d: DraftView<F>,
    then: DraftView<F>,
)
    requires
        lines.len() >= 1,
        drafted::<F>(lines) == Ok::<DraftView<F>, Seq<char>>(d),
        d.after(l, lines.len() + 1) == Ok::<DraftView<F>, Seq<char>>(then),
    ensures
        drafted::<F>(lines.push(l)) == Ok::<DraftView<F>, Seq<char>>(then),
{
    assert(lines.push(l).drop_last() =~= lines);
}

/// Whether every line can stand as one.
spec fn are_lines(lines: Seq<Seq<char>>) -> bool {
    forall|i: int| 0 <= i < lines.len() ==> is_line(#[trigger] lines[i])
}

proof fn lemma_refusals<F: Figure>(
    front: Seq<Seq<char>>,
    d: DraftView<F>,
    rs: Seq<RefusalView<F>>,
)
    requires
        front.len() >= 1,
        are_lines(front),
        drafted::<F>(front) == Ok::<DraftView<F>, Seq<char>>(d),
    ensures
        are_lines(front + refusal_lines(rs)),
        drafted::<F>(front + refusal_lines(rs)) == Ok::<DraftView<F>, Seq<char>>(
            DraftView {
                file: FileView {
                    refusals: d.file.refusals + rs.map_values(
                        |r: RefusalView<F>| cleaned(r.text()),
                    ),
                    ..d.file
                },
                ..d
            },
        ),
    decreases rs.len(),
{
    let told = rs.map_values(|r: RefusalView<F>| cleaned(r.text()));
    if rs.len() == 0 {
        assert(front + refusal_lines(rs) =~= front);
        assert(d.file.refusals + told =~= d.file.refusals);
    } else {
        let less = rs.drop_last();
        lemma_refusals(front, d, less);
        let before = front + refusal_lines(less);
        let toldless = less.map_values(|r: RefusalView<F>| cleaned(r.text()));
        let mid = DraftView {
            file: FileView { refusals: d.file.refusals + toldless, ..d.file },
            ..d
        };
        lemma_refusal(mid, rs.last(), before.len() + 1);
        assert(front + refusal_lines(rs) =~= before.push(refusal_line(rs.last())));
        assert(d.file.refusals + told =~= (d.file.refusals + toldless).push(
            cleaned(rs.last().text()),
        ));
        lemma_step(
            before,
            refusal_line(rs.last()),
            mid,
            DraftView { file: FileView { refusals: d.file.refusals + told, ..d.file }, ..d },
        );
    }
}

proof fn lemma_unscored<F: Figure>(front: Seq<Seq<char>>, d: DraftView<F>, labels: Seq<String>)
    requires
        front.len() >= 1,
        are_lines(front),
        drafted::<F>(front) == Ok::<DraftView<F>, Seq<char>>(d),
    ensures
        are_lines(front + unscorable_lines(labels)),
        drafted::<F>(front + unscorable_lines(labels)) == Ok::<DraftView<F>, Seq<char>>(
            DraftView {
                file: FileView {
                    unscorable: d.file.unscorable + labels.map_values(|l: String| cleaned(l@)),
                    ..d.file
                },
                ..d
            },
        ),
    decreases labels.len(),
{
    let told = labels.map_values(|l: String| cleaned(l@));
    if labels.len() == 0 {
        assert(front + unscorable_lines(labels) =~= front);
        assert(d.file.unscorable + told =~= d.file.unscorable);
    } else {
        let less = labels.drop_last();
        lemma_unscored(front, d, less);
        let before = front + unscorable_lines(less);
        let toldless = less.map_values(|l: String| cleaned(l@));
        let mid = DraftView {
            file: FileView { unscorable: d.file.unscorable + toldless, ..d.file },
            ..d
        };
        let l = labels.last()@;
        lemma_unscorable(mid, l, before.len() + 1);
        assert(front + unscorable_lines(labels) =~= before.push("unscorable "@ + cleaned(l)));
        assert(d.file.unscorable + told =~= (d.file.unscorable + toldless).push(cleaned(l)));
        lemma_step(
            before,
            "unscorable "@ + cleaned(l),
            mid,
            DraftView { file: FileView { unscorable: d.file.unscorable + told, ..d.file }, ..d },
        );
    }
}

/// The rows of the first `k` results.
spec fn rows_of<F: Figure>(
    results: Seq<(String, RunResult)>,
    sharpes: Seq<Option<F>>,
    k: nat,
) -> Seq<RowView<F>> {
    Seq::new(k, |i: int| row_of(results[i].0@, results[i].1, sharpe_at(sharpes, i)))
}

proof fn lemma_configs<F: Figure>(
    front: Seq<Seq<char>>,
    d: DraftView<F>,
    results: Seq<(String, RunResult)>,
    sharpes: Seq<Option<F>>,
    k: nat,
)
    requires
        front.len() >= 1,
        are_lines(front),
        drafted::<F>(front) == Ok::<DraftView<F>, Seq<char>>(d),
        k <= results.len(),
        forall|i: int|
            0 <= i < results.len() ==> row_writes_back(
                (#[trigger] results[i]).1,
                sharpe_at(sharpes, i),
            ),
    ensures
        are_lines(front + config_lines(results, sharpes).subrange(0, k as int)),
        drafted::<F>(front + config_lines(results, sharpes).subrange(0, k as int)) == Ok::<
            DraftView<F>,
            Seq<char>,
        >(
            DraftView {
                file: FileView {
                    configs: d.file.configs + rows_of(results, sharpes, k),
                    ..d.file
                },
                ..d
            },
        ),
    decreases k,
{
    let lines = config_lines(results, sharpes);
    if k == 0 {
        assert(front + lines.subrange(0, 0) =~= front);
        assert(d.file.configs + rows_of(results, sharpes, 0) =~= d.file.configs);
    } else {
        let j = (k - 1) as nat;
        lemma_configs(front, d, results, sharpes, j);
        let before = front + lines.subrange(0, j as int);
        let mid = DraftView {
            file: FileView { configs: d.file.configs + rows_of(results, sharpes, j), ..d.file },
            ..d
        };
        let label = results[j as int].0@;
        let result = results[j as int].1;
        let sharpe = sharpe_at(sharpes, j as int);
        lemma_config(mid, label, result, sharpe, before.len() + 1);
        assert(front + lines.subrange(0, k as int) =~= before.push(
            config_line(label, result, sharpe),
        ));
        assert(d.file.configs + rows_of(results, sharpes, k) =~= (d.file.configs + rows_of(
            results,
            sharpes,
            j,
        )).push(row_of(label, result, sharpe)));
        lemma_step(
            before,
            config_line(label, result, sharpe),
            mid,
            DraftView {
                file: FileView { configs: d.file.configs + rows_of(results, sharpes, k), ..d.file },
                ..d
            },
        );
    }
}

/// The draft after the lines that come before those of the refusals.
spec fn front_of<F: Figure>(
    label: Seq<char>,
    report: SweepReport<F>,
    t: Thresholds<F>,
) -> DraftView<F> {
    DraftView {
        file: FileView {
            label: cleaned(label),
            equity_every: report.equity_every,
            thresholds: (t.max_pbo, t.min_deflated_sharpe, t.min_degradation_slope),
            deflated_sharpe: match report.deflated_sharpe {
                Ok(d) => Ok(d),
                Err(why) => Err(cleaned(why@)),
            },
            pbo: match report.pbo {
                Ok(p) => Ok(
                    PboView {
                        pbo: p.pbo,
                        splits: p.n_splits,
                        probability_of_loss: p.probability_of_loss,
                        median_oos_sharpe: p.median_oos_sharpe,
                        degradation: p.performance_degradation,
                        logits: Seq::empty(),
                    },
                ),
                Err(why) => Err(cleaned(why@)),
            },
            ..blank::<F>().file
        },
        logits: match report.pbo {
            Ok(p) => p.logits@,
            Err(_) => Seq::empty(),
        },
    }
}

proof fn lemma_front<F: Figure>(
    label: Seq<char>,
    report: SweepReport<F>,
    t: Thresholds<F>,
    sharpes: Seq<Option<F>>,
) -> (front: Seq<Seq<char>>)
    requires
        all_write_back(report, t, sharpes),
    ensures
        front == seq![
            header_line(),
            label_line(label),
            every_line(report.equity_every),
            thresholds_line(t),
        ] + seq![sharpe_line(report.deflated_sharpe)] + pbo_lines(report.pbo),
        front.len() >= 1,
        front[0] == header_line(),
        are_lines(front),
        drafted::<F>(front) == Ok::<DraftView<F>, Seq<char>>(front_of(label, report, t)),
{
    lemma_header();
    let d0 = blank::<F>();
    let l0 = seq![header_line()];
    let d1 = DraftView { file: FileView { label: cleaned(label), ..d0.file }, ..d0 };
    lemma_label(d0, label, 2);
    lemma_step(l0, label_line(label), d0, d1);
    let l1 = l0.push(label_line(label));
    let d2 = DraftView { file: FileView { equity_every: report.equity_every, ..d1.file }, ..d1 };
    lemma_every(d1, report.equity_every, 3);
    lemma_step(l1, every_line(report.equity_every), d1, d2);
    let l2 = l1.push(every_line(report.equity_every));
    let told = (t.max_pbo, t.min_deflated_sharpe, t.min_degradation_slope);
    let d3 = DraftView { file: FileView { thresholds: told, ..d2.file }, ..d2 };
    lemma_thresholds(d2, t, 4);
    lemma_step(l2, thresholds_line(t), d2, d3);
    let l3 = l2.push(thresholds_line(t));
    let d4 = DraftView {
        file: FileView {
            deflated_sharpe: front_of(label, report, t).file.deflated_sharpe,
            ..d3.file
        },
        ..d3
    };
    lemma_sharpe(d3, report.deflated_sharpe, 5);
    lemma_step(l3, sharpe_line(report.deflated_sharpe), d3, d4);
    let l4 = l3.push(sharpe_line(report.deflated_sharpe));
    let front = l4 + pbo_lines(report.pbo);
    match report.pbo {
        Ok(p) => {
            let d5 = DraftView {
                file: FileView { pbo: front_of(label, report, t).file.pbo, ..d4.file },
                ..d4
            };
            lemma_pbo(d4, p, 6);
            lemma_step(l4, pbo_lines(report.pbo)[0], d4, d5);
            let l5 = l4.push(pbo_lines(report.pbo)[0]);
            lemma_logits(d5, p, 7);
            let d6 = DraftView { logits: p.logits@, ..d5 };
            lemma_step(l5, pbo_lines(report.pbo)[1], d5, d6);
            assert(front =~= l5.push(pbo_lines(report.pbo)[1]));
            assert(d6 =~= front_of(label, report, t));
        },
        Err(why) => {
            let d5 = DraftView { file: FileView { pbo: Err(cleaned(why@)), ..d4.file }, ..d4 };
            lemma_no_pbo(d4, why@, 6);
            lemma_step(l4, pbo_lines(report.pbo)[0], d4, d5);
            assert(front =~= l4.push(pbo_lines(report.pbo)[0]));
            assert(d5 =~= front_of(label, report, t));
        },
    }
    assert(front =~= seq![
        header_line(),
        label_line(label),
        every_line(report.equity_every),
        thresholds_line(t),
    ] + seq![sharpe_line(report.deflated_sharpe)] + pbo_lines(report.pbo));
    front
}

proof fn lemma_verdict(check: crate::backtest::lookahead::LookaheadReport)
    ensures
        is_line(lookahead_text(check)),
{
    reveal_strlit("clean over ");
    reveal_strlit(" signal(s)");
    reveal_strlit(" divergence(s) in ");
    reveal_strlit(" checked");
    lemma_count_reads_back(check.signals);
    lemma_count_reads_back(check.checked);
    lemma_count_reads_back(check.divergences.len());
    let a = digits(check.signals as nat);
    let b = digits(check.divergences@.len());
    let c = digits(check.checked as nat);
    lemma_lacks_join("clean over "@, a, '\n');
    lemma_lacks_join("clean over "@ + a, " signal(s)"@, '\n');
    lemma_lacks_join("clean over "@, a, '\r');
    lemma_lacks_join("clean over "@ + a, " signal(s)"@, '\r');
    lemma_lacks_join(b, " divergence(s) in "@, '\n');
    lemma_lacks_join(b + " divergence(s) in "@, c, '\n');
    lemma_lacks_join(b + " divergence(s) in "@ + c, " checked"@, '\n');
    lemma_lacks_join(b, " divergence(s) in "@, '\r');
    lemma_lacks_join(b + " divergence(s) in "@, c, '\r');
    lemma_lacks_join(b + " divergence(s) in "@ + c, " checked"@, '\r');
}

/// Figures that are all numbers all write back.
proof fn lemma_numbers_write_back<F: Figure>(
    report: SweepReport<F>,
    t: Thresholds<F>,
    sharpes: Seq<Option<F>>,
)
    requires
        all_numbers(report, t, sharpes),
    ensures
        all_write_back(report, t, sharpes),
{
    t.max_pbo.lemma_writes_back();
    t.min_deflated_sharpe.lemma_writes_back();
    t.min_degradation_slope.lemma_writes_back();
    if let Ok(d) = report.deflated_sharpe {
        d.lemma_writes_back();
    }
    if let Ok(p) = report.pbo {
        p.pbo.lemma_writes_back();
        p.probability_of_loss.lemma_writes_back();
        p.median_oos_sharpe.lemma_writes_back();
        p.performance_degradation.lemma_writes_back();
        assert forall|i: int| 0 <= i < p.logits@.len() implies writes_back(
            #[trigger] p.logits@[i],
        ) by {
            p.logits@[i].lemma_writes_back();
        }
    }
    assert forall|i: int| 0 <= i < report.results@.len() implies row_writes_back(
        (#[trigger] report.results@[i]).1,
        sharpe_at(sharpes, i),
    ) by {
        let result = report.results@[i].1;
        in_currency::<F>(result.realized).lemma_writes_back();
        in_currency::<F>(result.fees_paid).lemma_writes_back();
        in_currency::<F>(result.final_equity).lemma_writes_back();
        in_currency::<F>(result.min_equity).lemma_writes_back();
        if let Some(s) = sharpe_at(sharpes, i) {
            s.lemma_writes_back();
        }
    }
}

/// A rendered sweep whose figures are all numbers reads back whole, including
/// what could not be computed: no label, reason or refusal can break a line.
pub proof fn law_a_rendered_sweep_reads_back<F: Figure>(
    label: Seq<char>,
    report: SweepReport<F>,
    t: Thresholds<F>,
    sharpes: Seq<Option<F>>,
)
    requires
        all_numbers(report, t, sharpes),
    ensures
        parsed::<F>(joined(sheet(label, report, t, sharpes))) == Ok::<FileView<F>, Seq<char>>(
            file_of(label, report, t, sharpes),
        ),
{
    lemma_numbers_write_back(report, t, sharpes);
    let lines = sheet(label, report, t, sharpes);
    let l0 = lemma_front(label, report, t, sharpes);
    let d0 = front_of(label, report, t);
    let rs = report.reasons(t);
    lemma_refusals(l0, d0, rs);
    let told = rs.map_values(|r: RefusalView<F>| cleaned(r.text()));
    let l1 = l0 + refusal_lines(rs);
    let d1 = DraftView { file: FileView { refusals: d0.file.refusals + told, ..d0.file }, ..d0 };
    let k = report.results@.len();
    lemma_configs(l1, d1, report.results@, sharpes, k);
    let rows = config_lines(report.results@, sharpes);
    assert(rows.subrange(0, k as int) =~= rows);
    let l2 = l1 + rows;
    let d2 = DraftView {
        file: FileView {
            configs: d1.file.configs + rows_of(report.results@, sharpes, k),
            ..d1.file
        },
        ..d1
    };
    lemma_unscored(l2, d2, report.unscorable@);
    let l3 = l2 + unscorable_lines(report.unscorable@);
    let d3 = DraftView {
        file: FileView {
            unscorable: d2.file.unscorable + report.unscorable@.map_values(
                |l: String| cleaned(l@),
            ),
            ..d2.file
        },
        ..d2
    };
    let want = file_of(label, report, t, sharpes);
    let d4 = DraftView { file: FileView { lookahead: want.lookahead, ..d3.file }, ..d3 };
    match report.lookahead {
        Some((l, check)) => {
            lemma_verdict(check);
            lemma_lookahead(d3, l@, lookahead_text(check), l3.len() + 1);
            let line = lookahead_lines(report.lookahead)[0];
            lemma_step(l3, line, d3, d4);
            assert(lines =~= l3.push(line));
        },
        None => {
            assert(lines =~= l3);
            assert(d4 =~= d3);
        },
    }
    assert(lines[0] == header_line());
    assert(are_lines(lines));
    law_joined_lines_are_lines(lines);
    lemma_header();
    assert(d4.finished() =~= want);
}

/// A file of another version, or of another kind, is refused.
pub proof fn law_another_first_line_is_refused<F: Figure>(text: Seq<char>)
    requires
        lines_of(text).len() > 0,
        trimmed(lines_of(text)[0]) != header_line(),
    ensures
        parsed::<F>(text) is Err,
{
}

/// A fixed-point figure writes back, except the one that stands for a value
/// that is not defined.
pub proof fn law_a_ratio_writes_back(x: Ratio)
    requires
        x != Ratio::undefined_value(),
    ensures
        writes_back(x),
{
    x.lemma_writes_back();
}

} // verus!
