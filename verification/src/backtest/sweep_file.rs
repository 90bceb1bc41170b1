//! A sweep's result as a file: what a console reads to show a parameter search
//! and whether it can be trusted.
//!
//! One fact per line, tab-separated where a line has several fields:
//!
//! ```text
//! openquanter-sweep 1
//! label ma-cross calm
//! equity-every 100
//! thresholds 0.35 0.95 0
//! deflated-sharpe 0.41
//! pbo 0.25 16 0.3 0.12 0.8
//! logits -1.2 0.4
//! refusal <sentence>
//! config <label>\t<fills>\t<realized>\t<fees>\t<final equity>\t<min equity>\t<liquidations>\t<sharpe or ->
//! unscorable <label>
//! lookahead <label>\t<sentence>
//! ```
//!
//! A statistic that could not be computed is written `<name> - <reason>`.
use crate::backtest::figure::{nought, zero, Figure};
use crate::backtest::lines::{
    cleaned, copy_texts, count_spelled, fields_of, head_of, joined, lines_of, parted, put_clean,
    put_parted, read_count, same_chars, split_fields, split_lines, split_once, tail_of, texts, trim,
    trimmed, views,
};
use crate::backtest::lookahead::LookaheadReport;
use crate::backtest::run::RunResult;
use crate::backtest::sweep::{PboReport, Refusal, RefusalView, SweepReport, Thresholds};
use crate::text::{
    chars_of, copy_all, copy_text, digits, put, put_digits, quoted, quoted_text, text_of,
};
use crate::types::Cash;
use vstd::prelude::*;

verus! {

/// The format this build writes and reads.
pub const VERSION: &'static str = "1";

/// One configuration's row.
#[derive(Clone, Debug, PartialEq)]
pub struct ConfigRow<F> {
    pub label: String,
    pub fills: usize,
    pub realized: F,
    pub fees: F,
    pub final_equity: F,
    pub min_equity: F,
    pub liquidations: usize,
    /// `None` when there were too few returns to score.
    pub sharpe: Option<F>,
}

/// The probability of backtest overfitting and what came with it.
#[derive(Clone, Debug, PartialEq)]
pub struct Pbo<F> {
    pub pbo: F,
    pub splits: usize,
    pub probability_of_loss: F,
    pub median_oos_sharpe: F,
    pub degradation: F,
    pub logits: Vec<F>,
}

/// A sweep file, read back.
#[derive(Debug, PartialEq)]
pub struct SweepFile<F> {
    pub label: String,
    pub equity_every: usize,
    /// The largest probability of overfitting, the smallest deflated Sharpe
    /// ratio and the smallest slope that were acceptable.
    pub thresholds: (F, F, F),
    pub deflated_sharpe: Result<F, String>,
    pub pbo: Result<Pbo<F>, String>,
    /// Why it must not be deployed; empty when nothing refused it.
    pub refusals: Vec<String>,
    pub configs: Vec<ConfigRow<F>>,
    pub unscorable: Vec<String>,
    pub lookahead: Option<(String, String)>,
}

/// What a row says.
#[verifier::ext_equal]
pub struct RowView<F> {
    pub label: Seq<char>,
    pub fills: usize,
    pub realized: F,
    pub fees: F,
    pub final_equity: F,
    pub min_equity: F,
    pub liquidations: usize,
    pub sharpe: Option<F>,
}

#[verifier::ext_equal]
pub struct PboView<F> {
    pub pbo: F,
    pub splits: usize,
    pub probability_of_loss: F,
    pub median_oos_sharpe: F,
    pub degradation: F,
    pub logits: Seq<F>,
}

/// What a file says.
#[verifier::ext_equal]
pub struct FileView<F> {
    pub label: Seq<char>,
    pub equity_every: usize,
    pub thresholds: (F, F, F),
    pub deflated_sharpe: Result<F, Seq<char>>,
    pub pbo: Result<PboView<F>, Seq<char>>,
    pub refusals: Seq<Seq<char>>,
    pub configs: Seq<RowView<F>>,
    pub unscorable: Seq<Seq<char>>,
    pub lookahead: Option<(Seq<char>, Seq<char>)>,
}

/// A file as far as it has been read: its logits stand on a line of their own.
#[verifier::ext_equal]
pub struct DraftView<F> {
    pub file: FileView<F>,
    pub logits: Seq<F>,
}

impl<F: Figure> View for ConfigRow<F> {
    type V = RowView<F>;

    open spec fn view(&self) -> RowView<F> {
        RowView {
            label: self.label@,
            fills: self.fills,
            realized: self.realized,
            fees: self.fees,
            final_equity: self.final_equity,
            min_equity: self.min_equity,
            liquidations: self.liquidations,
            sharpe: self.sharpe,
        }
    }
}

impl<F: Figure> View for Pbo<F> {
    type V = PboView<F>;

    open spec fn view(&self) -> PboView<F> {
        PboView {
            pbo: self.pbo,
            splits: self.splits,
            probability_of_loss: self.probability_of_loss,
            median_oos_sharpe: self.median_oos_sharpe,
            degradation: self.degradation,
            logits: self.logits@,
        }
    }
}

impl<F: Figure> View for SweepFile<F> {
    type V = FileView<F>;

    open spec fn view(&self) -> FileView<F> {
        FileView {
            label: self.label@,
            equity_every: self.equity_every,
            thresholds: self.thresholds,
            deflated_sharpe: match self.deflated_sharpe {
                Ok(d) => Ok(d),
                Err(why) => Err(why@),
            },
            pbo: match self.pbo {
                Ok(p) => Ok(p@),
                Err(why) => Err(why@),
            },
            refusals: texts(self.refusals@),
            configs: self.configs@.map_values(|r: ConfigRow<F>| r@),
            unscorable: texts(self.unscorable@),
            lookahead: match self.lookahead {
                Some((l, v)) => Some((l@, v@)),
                None => None,
            },
        }
    }
}

fn copy_rows<F: Figure>(list: &Vec<ConfigRow<F>>) -> (r: Vec<ConfigRow<F>>)
    ensures
        r@.map_values(|r: ConfigRow<F>| r@) == list@.map_values(|r: ConfigRow<F>| r@),
{
    let ghost all = list@.map_values(|r: ConfigRow<F>| r@);
    let mut out: Vec<ConfigRow<F>> = Vec::new();
    let mut i: usize = 0;
    while i < list.len()
        invariant
            i <= list@.len(),
            all == list@.map_values(|r: ConfigRow<F>| r@),
            out@.map_values(|r: ConfigRow<F>| r@) == all.subrange(0, i as int),
        decreases list@.len() - i,
    {
        let ghost had = out@.map_values(|r: ConfigRow<F>| r@);
        let row = &list[i];
        out.push(
            ConfigRow {
                label: copy_text(&row.label),
                fills: row.fills,
                realized: row.realized,
                fees: row.fees,
                final_equity: row.final_equity,
                min_equity: row.min_equity,
                liquidations: row.liquidations,
                sharpe: row.sharpe,
            },
        );
        i += 1;
        assert(out@.map_values(|r: ConfigRow<F>| r@) =~= had.push(all[i - 1]));
        assert(out@.map_values(|r: ConfigRow<F>| r@) =~= all.subrange(0, i as int));
    }
    assert(out@.map_values(|r: ConfigRow<F>| r@) =~= all);
    out
}

impl<F: Figure> Clone for SweepFile<F> {
    fn clone(&self) -> (r: Self)
        ensures
            r@ == self@,
    {
        let r = SweepFile {
            label: copy_text(&self.label),
            equity_every: self.equity_every,
            thresholds: (self.thresholds.0, self.thresholds.1, self.thresholds.2),
            deflated_sharpe: match &self.deflated_sharpe {
                Ok(d) => Ok(*d),
                Err(why) => Err(copy_text(why)),
            },
            pbo: match &self.pbo {
                Ok(p) => Ok(
                    Pbo {
                        pbo: p.pbo,
                        splits: p.splits,
                        probability_of_loss: p.probability_of_loss,
                        median_oos_sharpe: p.median_oos_sharpe,
                        degradation: p.degradation,
                        logits: copy_all(&p.logits),
                    },
                ),
                Err(why) => Err(copy_text(why)),
            },
            refusals: copy_texts(&self.refusals),
            configs: copy_rows(&self.configs),
            unscorable: copy_texts(&self.unscorable),
            lookahead: match &self.lookahead {
                Some((l, v)) => Some((copy_text(l), copy_text(v))),
                None => None,
            },
        };
        assert(r@ =~= self@);
        r
    }
}

/// Cash as the file writes it: account currency, not the fixed-point unit.
pub open spec fn in_currency<F: Figure>(c: Cash) -> F {
    F::quotient_of(c.0, 100_000_000)
}

fn currency<F: Figure>(c: Cash) -> (r: F)
    ensures
        r == in_currency::<F>(c),
{
    F::ratio(c.0, 100_000_000)
}

/// The first line.
pub open spec fn header_line() -> Seq<char> {
    "openquanter-sweep "@ + VERSION@
}

pub open spec fn label_line(label: Seq<char>) -> Seq<char> {
    "label "@ + cleaned(label)
}

pub open spec fn every_line(n: usize) -> Seq<char> {
    "equity-every "@ + digits(n as nat)
}

pub open spec fn thresholds_line<F: Figure>(t: Thresholds<F>) -> Seq<char> {
    "thresholds "@ + parted(
        seq![
            t.max_pbo.plain_text(),
            t.min_deflated_sharpe.plain_text(),
            t.min_degradation_slope.plain_text(),
        ],
        ' ',
    )
}

pub open spec fn sharpe_line<F: Figure>(d: Result<F, String>) -> Seq<char> {
    match d {
        Ok(d) => "deflated-sharpe "@ + d.plain_text(),
        Err(why) => "deflated-sharpe "@ + ("- "@ + cleaned(why@)),
    }
}

/// Figures written out in full.
pub open spec fn plain_texts<F: Figure>(xs: Seq<F>) -> Seq<Seq<char>> {
    xs.map_values(|x: F| x.plain_text())
}

pub open spec fn pbo_lines<F: Figure>(p: Result<PboReport<F>, String>) -> Seq<Seq<char>> {
    match p {
        Ok(p) => seq![
            "pbo "@ + parted(
                seq![
                    p.pbo.plain_text(),
                    digits(p.n_splits as nat),
                    p.probability_of_loss.plain_text(),
                    p.median_oos_sharpe.plain_text(),
                    p.performance_degradation.plain_text(),
                ],
                ' ',
            ),
            "logits "@ + parted(plain_texts(p.logits@), ' '),
        ],
        Err(why) => seq!["pbo "@ + ("- "@ + cleaned(why@))],
    }
}

pub open spec fn refusal_line<F: Figure>(r: RefusalView<F>) -> Seq<char> {
    "refusal "@ + cleaned(r.text())
}

pub open spec fn refusal_lines<F: Figure>(rs: Seq<RefusalView<F>>) -> Seq<Seq<char>> {
    rs.map_values(|r: RefusalView<F>| refusal_line(r))
}

/// A Sharpe ratio, or a dash where there is none.
pub open spec fn sharpe_text<F: Figure>(s: Option<F>) -> Seq<char> {
    match s {
        Some(s) => s.plain_text(),
        None => "-"@,
    }
}

pub open spec fn config_fields<F: Figure>(
    label: Seq<char>,
    result: RunResult,
    sharpe: Option<F>,
) -> Seq<Seq<char>> {
    seq![
        cleaned(label),
        digits(result.fills@.len()),
        in_currency::<F>(result.realized).plain_text(),
        in_currency::<F>(result.fees_paid).plain_text(),
        in_currency::<F>(result.final_equity).plain_text(),
        in_currency::<F>(result.min_equity).plain_text(),
        digits(result.liquidations@.len()),
        sharpe_text(sharpe),
    ]
}

/// The Sharpe ratio of the `i`-th result, where it was scored.
pub open spec fn sharpe_at<F: Figure>(sharpes: Seq<Option<F>>, i: int) -> Option<F> {
    if i < sharpes.len() {
        sharpes[i]
    } else {
        None
    }
}

pub open spec fn config_line<F: Figure>(
    label: Seq<char>,
    result: RunResult,
    sharpe: Option<F>,
) -> Seq<char> {
    "config "@ + parted(config_fields(label, result, sharpe), '\t')
}

pub open spec fn config_lines<F: Figure>(
    results: Seq<(String, RunResult)>,
    sharpes: Seq<Option<F>>,
) -> Seq<Seq<char>> {
    Seq::new(
        results.len(),
        |i: int| config_line(results[i].0@, results[i].1, sharpe_at(sharpes, i)),
    )
}

pub open spec fn unscorable_lines(labels: Seq<String>) -> Seq<Seq<char>> {
    labels.map_values(|l: String| "unscorable "@ + cleaned(l@))
}

/// What a lookahead check found, in words.
pub open spec fn lookahead_text(check: LookaheadReport) -> Seq<char> {
    if check.divergences@.len() == 0 {
        "clean over "@ + digits(check.signals as nat) + " signal(s)"@
    } else {
        digits(check.divergences@.len()) + " divergence(s) in "@ + digits(check.checked as nat)
            + " checked"@
    }
}

pub open spec fn lookahead_lines(l: Option<(String, LookaheadReport)>) -> Seq<Seq<char>> {
    match l {
        Some((label, check)) => seq![
            "lookahead "@ + parted(seq![cleaned(label@), lookahead_text(check)], '\t'),
        ],
        None => Seq::empty(),
    }
}

/// The lines of a sweep, judged against thresholds.
pub open spec fn sheet<F: Figure>(
    label: Seq<char>,
    report: SweepReport<F>,
    t: Thresholds<F>,
    sharpes: Seq<Option<F>>,
) -> Seq<Seq<char>> {
    seq![header_line(), label_line(label), every_line(report.equity_every), thresholds_line(t)]
        + seq![sharpe_line(report.deflated_sharpe)] + pbo_lines(report.pbo) + refusal_lines(
        report.reasons(t),
    ) + config_lines(report.results@, sharpes) + unscorable_lines(report.unscorable@)
        + lookahead_lines(report.lookahead)
}

/// One more line of a text.
fn end_line(out: &mut String, Ghost(lines): Ghost<Seq<Seq<char>>>, Ghost(l): Ghost<Seq<char>>)
    requires
        old(out)@ == joined(lines) + l,
    ensures
        final(out)@ == joined(lines.push(l)),
{
    let ghost start = out@;
    out.push('\n');
    proof {
        assert(lines.push(l).drop_last() =~= lines);
        assert(out@ =~= joined(lines) + l.push('\n'));
    }
}

fn plain_all<F: Figure>(xs: &Vec<F>) -> (r: Vec<String>)
    ensures
        texts(r@) == plain_texts(xs@),
{
    let mut out: Vec<String> = Vec::new();
    let mut i: usize = 0;
    while i < xs.len()
        invariant
            i <= xs@.len(),
            texts(out@) == plain_texts(xs@).subrange(0, i as int),
        decreases xs@.len() - i,
    {
        let ghost before = out@;
        let t = xs[i].to_plain();
        out.push(t);
        i += 1;
        assert(texts(out@) =~= texts(before).push(t@));
        assert(texts(out@) =~= plain_texts(xs@).subrange(0, i as int));
    }
    assert(texts(out@) =~= plain_texts(xs@));
    out
}

fn clean_text(text: &str) -> (r: String)
    ensures
        r@ == cleaned(text@),
{
    let mut out = String::new();
    put_clean(&mut out, text);
    assert(out@ =~= cleaned(text@));
    out
}

fn count_text(n: usize) -> (r: String)
    ensures
        r@ == digits(n as nat),
{
    let mut out = String::new();
    put_digits(&mut out, n as u64);
    assert(out@ =~= digits(n as nat));
    out
}

fn put_thresholds<F: Figure>(out: &mut String, t: Thresholds<F>)
    ensures
        final(out)@ == old(out)@ + thresholds_line(t),
{
    let ghost start = out@;
    put(out, "thresholds ");
    let mut fields: Vec<String> = Vec::new();
    fields.push(t.max_pbo.to_plain());
    fields.push(t.min_deflated_sharpe.to_plain());
    fields.push(t.min_degradation_slope.to_plain());
    assert(texts(fields@) =~= seq![
        t.max_pbo.plain_text(),
        t.min_deflated_sharpe.plain_text(),
        t.min_degradation_slope.plain_text(),
    ]);
    put_parted(out, &fields, ' ');
    assert(out@ =~= start + thresholds_line(t));
}

fn put_pbo<F: Figure>(out: &mut String, p: &PboReport<F>)
    ensures
        final(out)@ == old(out)@ + "pbo "@ + parted(
            seq![
                p.pbo.plain_text(),
                digits(p.n_splits as nat),
                p.probability_of_loss.plain_text(),
                p.median_oos_sharpe.plain_text(),
                p.performance_degradation.plain_text(),
            ],
            ' ',
        ),
{
    put(out, "pbo ");
    let mut fields: Vec<String> = Vec::new();
    fields.push(p.pbo.to_plain());
    fields.push(count_text(p.n_splits));
    fields.push(p.probability_of_loss.to_plain());
    fields.push(p.median_oos_sharpe.to_plain());
    fields.push(p.performance_degradation.to_plain());
    assert(texts(fields@) =~= seq![
        p.pbo.plain_text(),
        digits(p.n_splits as nat),
        p.probability_of_loss.plain_text(),
        p.median_oos_sharpe.plain_text(),
        p.performance_degradation.plain_text(),
    ]);
    put_parted(out, &fields, ' ');
}

fn put_config<F: Figure>(out: &mut String, label: &str, result: &RunResult, sharpe: Option<F>)
    ensures
        final(out)@ == old(out)@ + config_line(label@, *result, sharpe),
{
    let ghost start = out@;
    put(out, "config ");
    let mut fields: Vec<String> = Vec::new();
    fields.push(clean_text(label));
    fields.push(count_text(result.fills.len()));
    fields.push(currency::<F>(result.realized).to_plain());
    fields.push(currency::<F>(result.fees_paid).to_plain());
    fields.push(currency::<F>(result.final_equity).to_plain());
    fields.push(currency::<F>(result.min_equity).to_plain());
    fields.push(count_text(result.liquidations.len()));
    fields.push(
        match sharpe {
            Some(s) => s.to_plain(),
            None => "-".to_owned(),
        },
    );
    assert(texts(fields@) =~= config_fields(label@, *result, sharpe));
    put_parted(out, &fields, '\t');
    assert(out@ =~= start + config_line(label@, *result, sharpe));
}

fn put_lookahead(out: &mut String, label: &str, check: &LookaheadReport)
    ensures
        final(out)@ == old(out)@ + ("lookahead "@ + parted(
            seq![cleaned(label@), lookahead_text(*check)],
            '\t',
        )),
{
    let ghost start = out@;
    let mut verdict = String::new();
    if check.clean() {
        put(&mut verdict, "clean over ");
        put_digits(&mut verdict, check.signals as u64);
        put(&mut verdict, " signal(s)");
    } else {
        put_digits(&mut verdict, check.divergences.len() as u64);
        put(&mut verdict, " divergence(s) in ");
        put_digits(&mut verdict, check.checked as u64);
        put(&mut verdict, " checked");
    }
    assert(verdict@ =~= lookahead_text(*check));
    put(out, "lookahead ");
    let mut fields: Vec<String> = Vec::new();
    fields.push(clean_text(label));
    fields.push(verdict);
    assert(texts(fields@) =~= seq![cleaned(label@), lookahead_text(*check)]);
    put_parted(out, &fields, '\t');
    assert(out@ =~= start + ("lookahead "@ + parted(
        seq![cleaned(label@), lookahead_text(*check)],
        '\t',
    )));
}

/// The lines that come before those of the configurations.
fn put_front<F: Figure>(out: &mut String, label: &str, report: &SweepReport<F>, t: Thresholds<F>)
    requires
        old(out)@ == Seq::<char>::empty(),
    ensures
        final(out)@ == joined(
            seq![header_line(), label_line(label@), every_line(report.equity_every), thresholds_line(t)]
                + seq![sharpe_line(report.deflated_sharpe)] + pbo_lines(report.pbo),
        ),
{
    let ghost l0 = Seq::<Seq<char>>::empty();
    put(out, "openquanter-sweep ");
    put(out, VERSION);
    assert(out@ =~= joined(l0) + header_line());
    end_line(out, Ghost(l0), Ghost(header_line()));
    let ghost l1 = l0.push(header_line());
    put(out, "label ");
    put_clean(out, label);
    assert(out@ =~= joined(l1) + label_line(label@));
    end_line(out, Ghost(l1), Ghost(label_line(label@)));
    let ghost l2 = l1.push(label_line(label@));
    put(out, "equity-every ");
    put_digits(out, report.equity_every as u64);
    assert(out@ =~= joined(l2) + every_line(report.equity_every));
    end_line(out, Ghost(l2), Ghost(every_line(report.equity_every)));
    let ghost l3 = l2.push(every_line(report.equity_every));
    put_thresholds(out, t);
    end_line(out, Ghost(l3), Ghost(thresholds_line(t)));
    let ghost l4 = l3.push(thresholds_line(t));
    match &report.deflated_sharpe {
        Ok(d) => {
            put(out, "deflated-sharpe ");
            put(out, d.to_plain().as_str());
        },
        Err(why) => {
            put(out, "deflated-sharpe ");
            put(out, "- ");
            put_clean(out, why.as_str());
        },
    }
    assert(out@ =~= joined(l4) + sharpe_line(report.deflated_sharpe));
    end_line(out, Ghost(l4), Ghost(sharpe_line(report.deflated_sharpe)));
    let ghost l5 = l4.push(sharpe_line(report.deflated_sharpe));
    match &report.pbo {
        Ok(p) => {
            put_pbo(out, p);
            let ghost a = pbo_lines(report.pbo)[0];
            assert(out@ =~= joined(l5) + a);
            end_line(out, Ghost(l5), Ghost(a));
            let ghost l6 = l5.push(a);
            put(out, "logits ");
            let fields = plain_all(&p.logits);
            put_parted(out, &fields, ' ');
            let ghost b = pbo_lines(report.pbo)[1];
            assert(out@ =~= joined(l6) + b);
            end_line(out, Ghost(l6), Ghost(b));
            assert(l6.push(b) =~= l5 + pbo_lines(report.pbo));
        },
        Err(why) => {
            put(out, "pbo ");
            put(out, "- ");
            put_clean(out, why.as_str());
            let ghost a = pbo_lines(report.pbo)[0];
            assert(out@ =~= joined(l5) + a);
            end_line(out, Ghost(l5), Ghost(a));
            assert(l5.push(a) =~= l5 + pbo_lines(report.pbo));
        },
    }
    assert(l5 + pbo_lines(report.pbo) =~= seq![
        header_line(),
        label_line(label@),
        every_line(report.equity_every),
        thresholds_line(t),
    ] + seq![sharpe_line(report.deflated_sharpe)] + pbo_lines(report.pbo));
}

/// Render a sweep, judged against `thresholds`. `sharpes[i]` is the Sharpe
/// ratio of result `i`, where it was scored.
pub fn render<F: Figure>(
    label: &str,
    report: &SweepReport<F>,
    thresholds: Thresholds<F>,
    sharpes: &Vec<Option<F>>,
) -> (r: String)
    ensures
        r@ == joined(sheet(label@, *report, thresholds, sharpes@)),
{
    let mut out = String::new();
    put_front(&mut out, label, report, thresholds);
    let ghost front = seq![
        header_line(),
        label_line(label@),
        every_line(report.equity_every),
        thresholds_line(thresholds),
    ] + seq![sharpe_line(report.deflated_sharpe)] + pbo_lines(report.pbo);
    let refusals = report.refusals(thresholds);
    let ghost refused = refusal_lines(report.reasons(thresholds));
    let mut i: usize = 0;
    assert(front + refused.subrange(0, 0) =~= front);
    assert(refusals@.len() == refusals@.map_values(|x: Refusal<F>| x@).len());
    while i < refusals.len()
        invariant
            i <= refusals@.len(),
            refusals@.map_values(|x: Refusal<F>| x@) == report.reasons(thresholds),
            refused == refusal_lines(report.reasons(thresholds)),
            refused.len() == refusals@.len(),
            out@ == joined(front + refused.subrange(0, i as int)),
        decreases refusals@.len() - i,
    {
        let ghost before = front + refused.subrange(0, i as int);
        let text = refusals[i].to_text();
        proof {
            assert(report.reasons(thresholds)[i as int] == refusals@[i as int]@);
        }
        put(&mut out, "refusal ");
        put_clean(&mut out, text.as_str());
        assert(out@ =~= joined(before) + refused[i as int]);
        end_line(&mut out, Ghost(before), Ghost(refused[i as int]));
        i += 1;
        assert(before.push(refused[i - 1]) =~= front + refused.subrange(0, i as int));
    }
    assert(refused.subrange(0, i as int) =~= refused);
    let ghost second = front + refused;
    let ghost rows = config_lines(report.results@, sharpes@);
    let mut c: usize = 0;
    assert(second + rows.subrange(0, 0) =~= second);
    while c < report.results.len()
        invariant
            c <= report.results@.len(),
            rows == config_lines(report.results@, sharpes@),
            out@ == joined(second + rows.subrange(0, c as int)),
        decreases report.results@.len() - c,
    {
        let ghost before = second + rows.subrange(0, c as int);
        let sharpe: Option<F> = if c < sharpes.len() {
            sharpes[c]
        } else {
            None
        };
        put_config(&mut out, report.results[c].0.as_str(), &report.results[c].1, sharpe);
        assert(out@ =~= joined(before) + rows[c as int]);
        end_line(&mut out, Ghost(before), Ghost(rows[c as int]));
        c += 1;
        assert(before.push(rows[c - 1]) =~= second + rows.subrange(0, c as int));
    }
    assert(rows.subrange(0, c as int) =~= rows);
    let ghost third = second + rows;
    let ghost missed = unscorable_lines(report.unscorable@);
    let mut u: usize = 0;
    assert(third + missed.subrange(0, 0) =~= third);
    while u < report.unscorable.len()
        invariant
            u <= report.unscorable@.len(),
            missed == unscorable_lines(report.unscorable@),
            out@ == joined(third + missed.subrange(0, u as int)),
        decreases report.unscorable@.len() - u,
    {
        let ghost before = third + missed.subrange(0, u as int);
        put(&mut out, "unscorable ");
        put_clean(&mut out, report.unscorable[u].as_str());
        assert(out@ =~= joined(before) + missed[u as int]);
        end_line(&mut out, Ghost(before), Ghost(missed[u as int]));
        u += 1;
        assert(before.push(missed[u - 1]) =~= third + missed.subrange(0, u as int));
    }
    assert(missed.subrange(0, u as int) =~= missed);
    let ghost fourth = third + missed;
    match &report.lookahead {
        Some((l, check)) => {
            put_lookahead(&mut out, l.as_str(), check);
            let ghost a = lookahead_lines(report.lookahead)[0];
            assert(out@ =~= joined(fourth) + a);
            end_line(&mut out, Ghost(fourth), Ghost(a));
            assert(fourth.push(a) =~= fourth + lookahead_lines(report.lookahead));
        },
        None => {
            assert(fourth =~= fourth + lookahead_lines(report.lookahead));
        },
    }
    assert(fourth + lookahead_lines(report.lookahead) =~= sheet(
        label@,
        *report,
        thresholds,
        sharpes@,
    ));
    out
}


/// Why a line could not be read: something in it is not a number.
pub open spec fn not_a_number(n: nat, what: Seq<char>) -> Seq<char> {
    "line "@ + digits(n) + ": "@ + what + " is not a number"@
}

/// The figure a field spells.
pub open spec fn figure_in<F: Figure>(
    fields: Seq<Seq<char>>,
    i: int,
    what: Seq<char>,
    n: nat,
) -> Result<F, Seq<char>> {
    if i < fields.len() {
        match F::spelled(fields[i]) {
            Some(x) => Ok(x),
            None => Err(not_a_number(n, what)),
        }
    } else {
        Err(not_a_number(n, what))
    }
}

/// The count a field spells.
pub open spec fn count_in(
    fields: Seq<Seq<char>>,
    i: int,
    what: Seq<char>,
    n: nat,
) -> Result<usize, Seq<char>> {
    if i < fields.len() {
        match count_spelled(fields[i]) {
            Some(x) => Ok(x),
            None => Err(not_a_number(n, what)),
        }
    } else {
        Err(not_a_number(n, what))
    }
}

/// The thresholds a line gives.
pub open spec fn thresholds_in<F: Figure>(rest: Seq<char>, n: nat) -> Result<
    (F, F, F),
    Seq<char>,
> {
    let p = fields_of(rest, ' ');
    match figure_in::<F>(p, 0, "max pbo"@, n) {
        Err(e) => Err(e),
        Ok(a) => match figure_in::<F>(p, 1, "min deflated sharpe"@, n) {
            Err(e) => Err(e),
            Ok(b) => match figure_in::<F>(p, 2, "min slope"@, n) {
                Err(e) => Err(e),
                Ok(c) => Ok((a, b, c)),
            },
        },
    }
}

/// Whether a statistic was written as the reason it is not there.
pub open spec fn gives_reason(rest: Seq<char>) -> bool {
    rest.len() >= 2 && rest[0] == '-' && rest[1] == ' '
}

/// The deflated Sharpe ratio a line gives, or the reason it gives for none.
pub open spec fn sharpe_in<F: Figure>(rest: Seq<char>, n: nat) -> Result<
    Result<F, Seq<char>>,
    Seq<char>,
> {
    if gives_reason(rest) {
        Ok(Err(rest.subrange(2, rest.len() as int)))
    } else {
        match F::spelled(rest) {
            Some(d) => Ok(Ok(d)),
            None => Err(not_a_number(n, "deflated sharpe"@)),
        }
    }
}

/// The probability of overfitting a line gives, or the reason it gives for
/// none.
pub open spec fn pbo_in<F: Figure>(rest: Seq<char>, n: nat) -> Result<
    Result<PboView<F>, Seq<char>>,
    Seq<char>,
> {
    if gives_reason(rest) {
        Ok(Err(rest.subrange(2, rest.len() as int)))
    } else {
        let p = fields_of(rest, ' ');
        match figure_in::<F>(p, 0, "pbo"@, n) {
            Err(e) => Err(e),
            Ok(pbo) => match count_in(p, 1, "splits"@, n) {
                Err(e) => Err(e),
                Ok(splits) => match figure_in::<F>(p, 2, "probability of loss"@, n) {
                    Err(e) => Err(e),
                    Ok(probability_of_loss) => match figure_in::<F>(
                        p,
                        3,
                        "median oos sharpe"@,
                        n,
                    ) {
                        Err(e) => Err(e),
                        Ok(median_oos_sharpe) => match figure_in::<F>(p, 4, "degradation"@, n) {
                            Err(e) => Err(e),
                            Ok(degradation) => Ok(
                                Ok(
                                    PboView {
                                        pbo,
                                        splits,
                                        probability_of_loss,
                                        median_oos_sharpe,
                                        degradation,
                                        logits: Seq::empty(),
                                    },
                                ),
                            ),
                        },
                    },
                },
            },
        }
    }
}

/// The logits that fields spell; an empty field spells none.
pub open spec fn logits_in<F: Figure>(fields: Seq<Seq<char>>, n: nat) -> Result<
    Seq<F>,
    Seq<char>,
>
    decreases fields.len(),
{
    if fields.len() == 0 {
        Ok(Seq::empty())
    } else {
        match logits_in::<F>(fields.drop_last(), n) {
            Err(e) => Err(e),
            Ok(xs) => if fields.last().len() == 0 {
                Ok(xs)
            } else {
                match F::spelled(fields.last()) {
                    Some(x) => Ok(xs.push(x)),
                    None => Err(not_a_number(n, "logit"@)),
                }
            },
        }
    }
}

/// The row a line gives.
pub open spec fn row_in<F: Figure>(rest: Seq<char>, n: nat) -> Result<RowView<F>, Seq<char>> {
    let p = fields_of(rest, '\t');
    if p.len() != 8 {
        Err("line "@ + digits(n) + ": a config row has 8 fields, this has "@ + digits(p.len()))
    } else {
        match count_in(p, 1, "fills"@, n) {
            Err(e) => Err(e),
            Ok(fills) => match figure_in::<F>(p, 2, "realized"@, n) {
                Err(e) => Err(e),
                Ok(realized) => match figure_in::<F>(p, 3, "fees"@, n) {
                    Err(e) => Err(e),
                    Ok(fees) => match figure_in::<F>(p, 4, "final equity"@, n) {
                        Err(e) => Err(e),
                        Ok(final_equity) => match figure_in::<F>(p, 5, "min equity"@, n) {
                            Err(e) => Err(e),
                            Ok(min_equity) => match count_in(p, 6, "liquidations"@, n) {
                                Err(e) => Err(e),
                                Ok(liquidations) => {
                                    let row = RowView {
                                        label: p[0],
                                        fills,
                                        realized,
                                        fees,
                                        final_equity,
                                        min_equity,
                                        liquidations,
                                        sharpe: None,
                                    };
                                    if p[7] == "-"@ {
                                        Ok(row)
                                    } else {
                                        match figure_in::<F>(p, 7, "sharpe"@, n) {
                                            Err(e) => Err(e),
                                            Ok(s) => Ok(RowView { sharpe: Some(s), ..row }),
                                        }
                                    }
                                },
                            },
                        },
                    },
                },
            },
        }
    }
}

/// A file of which only the first line has been read.
pub open spec fn blank<F: Figure>() -> DraftView<F> {
    DraftView {
        file: FileView {
            label: Seq::empty(),
            equity_every: 0,
            thresholds: (nought(), nought(), nought()),
            deflated_sharpe: Err("not recorded"@),
            pbo: Err("not recorded"@),
            refusals: Seq::empty(),
            configs: Seq::empty(),
            unscorable: Seq::empty(),
            lookahead: None,
        },
        logits: Seq::empty(),
    }
}

impl<F: Figure> DraftView<F> {
    /// The draft after one more line, or why the line cannot be read.
    #[verifier::opaque]
    pub open spec fn after(self, line: Seq<char>, n: nat) -> Result<DraftView<F>, Seq<char>> {
        let key = head_of(line, ' ');
        let rest = tail_of(line, ' ');
        let file = self.file;
        if key == "label"@ {
            Ok(DraftView { file: FileView { label: rest, ..file }, ..self })
        } else if key == "equity-every"@ {
            match count_spelled(rest) {
                Some(equity_every) => Ok(
                    DraftView { file: FileView { equity_every, ..file }, ..self },
                ),
                None => Err(not_a_number(n, "equity-every"@)),
            }
        } else if key == "thresholds"@ {
            match thresholds_in::<F>(rest, n) {
                Ok(thresholds) => Ok(DraftView { file: FileView { thresholds, ..file }, ..self }),
                Err(e) => Err(e),
            }
        } else if key == "deflated-sharpe"@ {
            match sharpe_in::<F>(rest, n) {
                Ok(deflated_sharpe) => Ok(
                    DraftView { file: FileView { deflated_sharpe, ..file }, ..self },
                ),
                Err(e) => Err(e),
            }
        } else if key == "pbo"@ {
            match pbo_in::<F>(rest, n) {
                Ok(pbo) => Ok(DraftView { file: FileView { pbo, ..file }, ..self }),
                Err(e) => Err(e),
            }
        } else if key == "logits"@ {
            match logits_in::<F>(fields_of(rest, ' '), n) {
                Ok(logits) => Ok(DraftView { logits, ..self }),
                Err(e) => Err(e),
            }
        } else if key == "refusal"@ {
            Ok(DraftView { file: FileView { refusals: file.refusals.push(rest), ..file }, ..self })
        } else if key == "unscorable"@ {
            Ok(
                DraftView {
                    file: FileView { unscorable: file.unscorable.push(rest), ..file },
                    ..self
                },
            )
        } else if key == "lookahead"@ {
            Ok(
                DraftView {
                    file: FileView {
                        lookahead: Some((head_of(rest, '\t'), tail_of(rest, '\t'))),
                        ..file
                    },
                    ..self
                },
            )
        } else if key == "config"@ {
            match row_in::<F>(rest, n) {
                Ok(row) => Ok(
                    DraftView { file: FileView { configs: file.configs.push(row), ..file }, ..self },
                ),
                Err(e) => Err(e),
            }
        } else if key == ""@ {
            Ok(self)
        } else {
            Err("line "@ + digits(n) + ": unknown line "@ + quoted_text(key))
        }
    }

    /// The file a draft amounts to.
    pub open spec fn finished(self) -> FileView<F> {
        FileView {
            pbo: match self.file.pbo {
                Ok(p) => Ok(PboView { logits: self.logits, ..p }),
                Err(why) => Err(why),
            },
            ..self.file
        }
    }
}

/// What the lines after the first amount to, or why one cannot be read.
pub open spec fn drafted<F: Figure>(lines: Seq<Seq<char>>) -> Result<DraftView<F>, Seq<char>>
    decreases lines.len(),
{
    if lines.len() <= 1 {
        Ok(blank())
    } else {
        match drafted::<F>(lines.drop_last()) {
            Ok(d) => d.after(lines.last(), lines.len()),
            Err(e) => Err(e),
        }
    }
}

/// What a text says of a sweep, or why it cannot be read.
pub open spec fn parsed<F: Figure>(text: Seq<char>) -> Result<FileView<F>, Seq<char>> {
    let lines = lines_of(text);
    if lines.len() == 0 {
        Err("empty"@)
    } else if trimmed(lines[0]) != header_line() {
        Err("not a sweep file this build reads: "@ + quoted_text(lines[0]))
    } else {
        match drafted::<F>(lines) {
            Ok(d) => Ok(d.finished()),
            Err(e) => Err(e),
        }
    }
}


/// A text made of characters.
fn whole(s: &Vec<char>) -> (r: String)
    ensures
        r@ == s@,
{
    let out = text_of(s, 0, s.len());
    assert(out@ =~= s@);
    out
}

fn number_error(n: usize, what: &str) -> (r: String)
    ensures
        r@ == not_a_number(n as nat, what@),
{
    let mut out = String::new();
    put(&mut out, "line ");
    put_digits(&mut out, n as u64);
    put(&mut out, ": ");
    put(&mut out, what);
    put(&mut out, " is not a number");
    assert(out@ =~= not_a_number(n as nat, what@));
    out
}

fn figure_field<F: Figure>(p: &Vec<Vec<char>>, i: usize, what: &str, n: usize) -> (r: Result<
    F,
    String,
>)
    ensures
        match r {
            Ok(x) => figure_in::<F>(views(p@), i as int, what@, n as nat) == Ok::<F, Seq<char>>(x),
            Err(e) => figure_in::<F>(views(p@), i as int, what@, n as nat) == Err::<F, Seq<char>>(
                e@,
            ),
        },
{
    if i < p.len() {
        match F::read(whole(&p[i]).as_str()) {
            Some(x) => Ok(x),
            None => Err(number_error(n, what)),
        }
    } else {
        Err(number_error(n, what))
    }
}

fn count_field(p: &Vec<Vec<char>>, i: usize, what: &str, n: usize) -> (r: Result<usize, String>)
    ensures
        match r {
            Ok(x) => count_in(views(p@), i as int, what@, n as nat) == Ok::<usize, Seq<char>>(x),
            Err(e) => count_in(views(p@), i as int, what@, n as nat) == Err::<usize, Seq<char>>(
                e@,
            ),
        },
{
    if i < p.len() {
        match read_count(&p[i]) {
            Some(x) => Ok(x),
            None => Err(number_error(n, what)),
        }
    } else {
        Err(number_error(n, what))
    }
}

fn read_thresholds<F: Figure>(rest: &Vec<char>, n: usize) -> (r: Result<(F, F, F), String>)
    ensures
        match r {
            Ok(x) => thresholds_in::<F>(rest@, n as nat) == Ok::<(F, F, F), Seq<char>>(x),
            Err(e) => thresholds_in::<F>(rest@, n as nat) == Err::<(F, F, F), Seq<char>>(e@),
        },
{
    let p = split_fields(rest, ' ');
    let a: F = match figure_field::<F>(&p, 0, "max pbo", n) {
        Ok(x) => x,
        Err(e) => {
            return Err(e);
        },
    };
    let b: F = match figure_field::<F>(&p, 1, "min deflated sharpe", n) {
        Ok(x) => x,
        Err(e) => {
            return Err(e);
        },
    };
    let c: F = match figure_field::<F>(&p, 2, "min slope", n) {
        Ok(x) => x,
        Err(e) => {
            return Err(e);
        },
    };
    Ok((a, b, c))
}

/// The reason a statistic was written as, if it was written as one.
fn reason(rest: &Vec<char>) -> (r: Option<String>)
    ensures
        match r {
            Some(why) => gives_reason(rest@) && why@ == rest@.subrange(2, rest@.len() as int),
            None => !gives_reason(rest@),
        },
{
    if rest.len() >= 2 && rest[0] == '-' && rest[1] == ' ' {
        Some(text_of(rest, 2, rest.len()))
    } else {
        None
    }
}

/// A statistic, or the reason it is not there, without its texts' storage.
pub open spec fn told<T>(r: Result<T, String>) -> Result<T, Seq<char>> {
    match r {
        Ok(x) => Ok(x),
        Err(why) => Err(why@),
    }
}

fn read_sharpe<F: Figure>(rest: &Vec<char>, n: usize) -> (r: Result<Result<F, String>, String>)
    ensures
        match r {
            Ok(x) => sharpe_in::<F>(rest@, n as nat) == Ok::<Result<F, Seq<char>>, Seq<char>>(
                told(x),
            ),
            Err(e) => sharpe_in::<F>(rest@, n as nat) == Err::<Result<F, Seq<char>>, Seq<char>>(
                e@,
            ),
        },
{
    match reason(rest) {
        Some(why) => Ok(Err(why)),
        None => match F::read(whole(rest).as_str()) {
            Some(d) => Ok(Ok(d)),
            None => Err(number_error(n, "deflated sharpe")),
        },
    }
}

/// What a statistic's line said of the probability of overfitting.
pub open spec fn told_pbo<F: Figure>(r: Result<Pbo<F>, String>) -> Result<PboView<F>, Seq<char>> {
    match r {
        Ok(p) => Ok(p@),
        Err(why) => Err(why@),
    }
}

fn read_pbo<F: Figure>(rest: &Vec<char>, n: usize) -> (r: Result<Result<Pbo<F>, String>, String>)
    ensures
        match r {
            Ok(x) => pbo_in::<F>(rest@, n as nat) == Ok::<
                Result<PboView<F>, Seq<char>>,
                Seq<char>,
            >(told_pbo(x)),
            Err(e) => pbo_in::<F>(rest@, n as nat) == Err::<
                Result<PboView<F>, Seq<char>>,
                Seq<char>,
            >(e@),
        },
{
    match reason(rest) {
        Some(why) => {
            return Ok(Err(why));
        },
        None => {},
    }
    let p = split_fields(rest, ' ');
    let pbo: F = match figure_field::<F>(&p, 0, "pbo", n) {
        Ok(x) => x,
        Err(e) => {
            return Err(e);
        },
    };
    let splits: usize = match count_field(&p, 1, "splits", n) {
        Ok(x) => x,
        Err(e) => {
            return Err(e);
        },
    };
    let probability_of_loss: F = match figure_field::<F>(&p, 2, "probability of loss", n) {
        Ok(x) => x,
        Err(e) => {
            return Err(e);
        },
    };
    let median_oos_sharpe: F = match figure_field::<F>(&p, 3, "median oos sharpe", n) {
        Ok(x) => x,
        Err(e) => {
            return Err(e);
        },
    };
    let degradation: F = match figure_field::<F>(&p, 4, "degradation", n) {
        Ok(x) => x,
        Err(e) => {
            return Err(e);
        },
    };
    let logits: Vec<F> = Vec::new();
    assert(logits@ =~= Seq::<F>::empty());
    Ok(
        Ok(
            Pbo {
                pbo,
                splits,
                probability_of_loss,
                median_oos_sharpe,
                degradation,
                logits,
            },
        ),
    )
}

fn read_logits<F: Figure>(rest: &Vec<char>, n: usize) -> (r: Result<Vec<F>, String>)
    ensures
        match r {
            Ok(x) => logits_in::<F>(fields_of(rest@, ' '), n as nat) == Ok::<Seq<F>, Seq<char>>(
                x@,
            ),
            Err(e) => logits_in::<F>(fields_of(rest@, ' '), n as nat) == Err::<Seq<F>, Seq<char>>(
                e@,
            ),
        },
{
    let p = split_fields(rest, ' ');
    let ghost all = views(p@);
    let mut out: Vec<F> = Vec::new();
    let mut i: usize = 0;
    assert(all.subrange(0, 0) =~= Seq::<Seq<char>>::empty());
    assert(out@ =~= Seq::<F>::empty());
    while i < p.len()
        invariant
            i <= p@.len(),
            all == views(p@),
            all == fields_of(rest@, ' '),
            logits_in::<F>(all.subrange(0, i as int), n as nat) == Ok::<Seq<F>, Seq<char>>(out@),
        decreases p@.len() - i,
    {
        let ghost now = all.subrange(0, i + 1);
        proof {
            assert(now.drop_last() =~= all.subrange(0, i as int));
            assert(now.last() == p@[i as int]@);
        }
        if p[i].len() > 0 {
            match F::read(whole(&p[i]).as_str()) {
                Some(x) => {
                    out.push(x);
                },
                None => {
                    let e = number_error(n, "logit");
                    proof {
                        lemma_logits_stop::<F>(all, i + 1, n as nat);
                    }
                    return Err(e);
                },
            }
        }
        i += 1;
    }
    assert(all.subrange(0, i as int) =~= all);
    Ok(out)
}

/// A field that spells no logit stops the reading, whatever follows it.
proof fn lemma_logits_stop<F: Figure>(fields: Seq<Seq<char>>, k: int, n: nat)
    requires
        0 <= k <= fields.len(),
        logits_in::<F>(fields.subrange(0, k), n) is Err,
    ensures
        logits_in::<F>(fields, n) == logits_in::<F>(fields.subrange(0, k), n),
    decreases fields.len(),
{
    if k == fields.len() {
        assert(fields.subrange(0, k) =~= fields);
    } else {
        assert(fields.drop_last().subrange(0, k) =~= fields.subrange(0, k));
        lemma_logits_stop::<F>(fields.drop_last(), k, n);
    }
}

fn read_row<F: Figure>(rest: &Vec<char>, n: usize) -> (r: Result<ConfigRow<F>, String>)
    ensures
        match r {
            Ok(x) => row_in::<F>(rest@, n as nat) == Ok::<RowView<F>, Seq<char>>(x@),
            Err(e) => row_in::<F>(rest@, n as nat) == Err::<RowView<F>, Seq<char>>(e@),
        },
{
    let p = split_fields(rest, '\t');
    assert(views(p@).len() == p@.len());
    if p.len() != 8 {
        let mut out = String::new();
        put(&mut out, "line ");
        put_digits(&mut out, n as u64);
        put(&mut out, ": a config row has 8 fields, this has ");
        put_digits(&mut out, p.len() as u64);
        assert(out@ =~= "line "@ + digits(n as nat) + ": a config row has 8 fields, this has "@
            + digits(p@.len()));
        return Err(out);
    }
    let fills: usize = match count_field(&p, 1, "fills", n) {
        Ok(x) => x,
        Err(e) => {
            return Err(e);
        },
    };
    let realized: F = match figure_field::<F>(&p, 2, "realized", n) {
        Ok(x) => x,
        Err(e) => {
            return Err(e);
        },
    };
    let fees: F = match figure_field::<F>(&p, 3, "fees", n) {
        Ok(x) => x,
        Err(e) => {
            return Err(e);
        },
    };
    let final_equity: F = match figure_field::<F>(&p, 4, "final equity", n) {
        Ok(x) => x,
        Err(e) => {
            return Err(e);
        },
    };
    let min_equity: F = match figure_field::<F>(&p, 5, "min equity", n) {
        Ok(x) => x,
        Err(e) => {
            return Err(e);
        },
    };
    let liquidations: usize = match count_field(&p, 6, "liquidations", n) {
        Ok(x) => x,
        Err(e) => {
            return Err(e);
        },
    };
    let sharpe: Option<F> = if same_chars(&p[7], "-") {
        None
    } else {
        match figure_field::<F>(&p, 7, "sharpe", n) {
            Ok(x) => Some(x),
            Err(e) => {
                return Err(e);
            },
        }
    };
    Ok(
        ConfigRow {
            label: whole(&p[0]),
            fills,
            realized,
            fees,
            final_equity,
            min_equity,
            liquidations,
            sharpe,
        },
    )
}

/// A file as far as it has been read.
struct Draft<F> {
    file: SweepFile<F>,
    logits: Vec<F>,
}

impl<F: Figure> Draft<F> {
    spec fn told(self) -> DraftView<F> {
        DraftView { file: self.file@, logits: self.logits@ }
    }

    /// Read one more line.
    #[verifier::rlimit(40)]
    fn read(&mut self, line: &Vec<char>, n: usize) -> (r: Result<(), String>)
        ensures
            match r {
                Ok(_) => old(self).told().after(line@, n as nat) == Ok::<
                    DraftView<F>,
                    Seq<char>,
                >(final(self).told()),
                Err(e) => old(self).told().after(line@, n as nat) == Err::<
                    DraftView<F>,
                    Seq<char>,
                >(e@),
            },
    {
        let ghost before = self.told();
        proof {
            reveal(DraftView::after);
        }
        let (key, rest) = split_once(line, ' ');
        if same_chars(&key, "label") {
            self.file.label = whole(&rest);
        } else if same_chars(&key, "equity-every") {
            match read_count(&rest) {
                Some(x) => {
                    self.file.equity_every = x;
                },
                None => {
                    return Err(number_error(n, "equity-every"));
                },
            }
        } else if same_chars(&key, "thresholds") {
            match read_thresholds(&rest, n) {
                Ok(x) => {
                    self.file.thresholds = x;
                },
                Err(e) => {
                    return Err(e);
                },
            }
        } else if same_chars(&key, "deflated-sharpe") {
            match read_sharpe(&rest, n) {
                Ok(x) => {
                    self.file.deflated_sharpe = x;
                },
                Err(e) => {
                    return Err(e);
                },
            }
        } else if same_chars(&key, "pbo") {
            match read_pbo(&rest, n) {
                Ok(x) => {
                    self.file.pbo = x;
                },
                Err(e) => {
                    return Err(e);
                },
            }
        } else if same_chars(&key, "logits") {
            match read_logits(&rest, n) {
                Ok(x) => {
                    self.logits = x;
                },
                Err(e) => {
                    return Err(e);
                },
            }
        } else if same_chars(&key, "refusal") {
            self.file.refusals.push(whole(&rest));
            assert(self.told().file.refusals =~= before.file.refusals.push(rest@));
        } else if same_chars(&key, "unscorable") {
            self.file.unscorable.push(whole(&rest));
            assert(self.told().file.unscorable =~= before.file.unscorable.push(rest@));
        } else if same_chars(&key, "lookahead") {
            let (label, verdict) = split_once(&rest, '\t');
            self.file.lookahead = Some((whole(&label), whole(&verdict)));
        } else if same_chars(&key, "config") {
            match read_row::<F>(&rest, n) {
                Ok(x) => {
                    self.file.configs.push(x);
                    assert(self.told().file.configs =~= before.file.configs.push(x@));
                },
                Err(e) => {
                    return Err(e);
                },
            }
        } else if !same_chars(&key, "") {
            let mut out = String::new();
            put(&mut out, "line ");
            put_digits(&mut out, n as u64);
            put(&mut out, ": unknown line ");
            put(&mut out, quoted(whole(&key).as_str()).as_str());
            assert(out@ =~= "line "@ + digits(n as nat) + ": unknown line "@ + quoted_text(key@));
            return Err(out);
        }
        Ok(())
    }
}

/// A line that cannot be read stops the reading, whatever follows it.
proof fn lemma_stops<F: Figure>(lines: Seq<Seq<char>>, k: int)
    requires
        0 <= k <= lines.len(),
        drafted::<F>(lines.subrange(0, k)) is Err,
    ensures
        drafted::<F>(lines) == drafted::<F>(lines.subrange(0, k)),
    decreases lines.len(),
{
    if k == lines.len() {
        assert(lines.subrange(0, k) =~= lines);
    } else {
        assert(lines.drop_last().subrange(0, k) =~= lines.subrange(0, k));
        lemma_stops::<F>(lines.drop_last(), k);
    }
}

impl<F: Figure> SweepFile<F> {
    /// Read a rendered sweep.
    ///
    /// The version line is missing or another, or a line does not parse: the
    /// error says which, and names the line by its number.
    pub fn parse(text: &str) -> (r: Result<Self, String>)
        ensures
            match r {
                Ok(f) => parsed::<F>(text@) == Ok::<FileView<F>, Seq<char>>(f@),
                Err(e) => parsed::<F>(text@) == Err::<FileView<F>, Seq<char>>(e@),
            },
    {
        let chars = chars_of(text);
        let lines = split_lines(&chars);
        let ghost all = views(lines@);
        assert(all.len() == lines@.len());
        if lines.len() == 0 {
            return Err("empty".to_owned());
        }
        assert(all[0] == lines@[0]@);
        let mut header = String::new();
        put(&mut header, "openquanter-sweep ");
        put(&mut header, VERSION);
        assert(header@ =~= header_line());
        if !same_chars(&trim(&lines[0]), header.as_str()) {
            let mut out = String::new();
            put(&mut out, "not a sweep file this build reads: ");
            put(&mut out, quoted(whole(&lines[0]).as_str()).as_str());
            assert(out@ =~= "not a sweep file this build reads: "@ + quoted_text(all[0]));
            return Err(out);
        }
        let mut d: Draft<F> = Draft {
            file: SweepFile {
                label: String::new(),
                equity_every: 0,
                thresholds: (zero(), zero(), zero()),
                deflated_sharpe: Err("not recorded".to_owned()),
                pbo: Err("not recorded".to_owned()),
                refusals: Vec::new(),
                configs: Vec::new(),
                unscorable: Vec::new(),
                lookahead: None,
            },
            logits: Vec::new(),
        };
        assert(d.told() =~= blank::<F>());
        let mut i: usize = 1;
        while i < lines.len()
            invariant
                1 <= i <= lines@.len(),
                all == views(lines@),
                all == lines_of(text@),
                trimmed(all[0]) == header_line(),
                drafted::<F>(all.subrange(0, i as int)) == Ok::<DraftView<F>, Seq<char>>(
                    d.told(),
                ),
            decreases lines@.len() - i,
        {
            let ghost now = all.subrange(0, i + 1);
            proof {
                assert(now.drop_last() =~= all.subrange(0, i as int));
                assert(now.last() == lines@[i as int]@);
            }
            match d.read(&lines[i], i + 1) {
                Ok(_) => {},
                Err(e) => {
                    proof {
                        lemma_stops::<F>(all, i + 1);
                    }
                    return Err(e);
                },
            }
            i += 1;
        }
        assert(all.subrange(0, i as int) =~= all);
        let ghost before = d.told();
        let Draft { file, logits } = d;
        let pbo: Result<Pbo<F>, String> = match file.pbo {
            Ok(p) => Ok(
                Pbo {
                    pbo: p.pbo,
                    splits: p.splits,
                    probability_of_loss: p.probability_of_loss,
                    median_oos_sharpe: p.median_oos_sharpe,
                    degradation: p.degradation,
                    logits,
                },
            ),
            Err(why) => Err(why),
        };
        let out = SweepFile {
            label: file.label,
            equity_every: file.equity_every,
            thresholds: file.thresholds,
            deflated_sharpe: file.deflated_sharpe,
            pbo,
            refusals: file.refusals,
            configs: file.configs,
            unscorable: file.unscorable,
            lookahead: file.lookahead,
        };
        assert(out@ =~= before.finished());
        Ok(out)
    }
}

} // verus!
