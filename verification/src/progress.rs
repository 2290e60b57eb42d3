//! Progress of long work, in numbers and texts. Drawing it is the caller's
//! part.

use crate::text::{decimal, decimal_text};
use vstd::prelude::*;

verus! {

/// Whether progress is to be shown: always, unless the environment's
/// `I18N_FORCE_PROGRESS` is `0`.
pub fn should_show_progress(force_progress: Option<&str>) -> (r: bool)
    ensures
        r == match force_progress {
            Some(value) => value@ != "0"@,
            None => true,
        },
{
    match force_progress {
        Some(value) => !crate::text::same_text(value, "0"),
        None => true,
    }
}

/// How much of some work is done.
#[derive(Debug)]
pub struct ProgressState {
    total: usize,
    completed: usize,
}

impl ProgressState {
    /// The amount of work.
    pub closed spec fn goal(&self) -> nat {
        self.total as nat
    }

    /// The amount done.
    pub closed spec fn done(&self) -> nat {
        self.completed as nat
    }

    /// Work of `total` steps, none of them done.
    pub fn new(total: usize) -> (state: ProgressState)
        ensures
            state.goal() == total,
            state.done() == 0,
    {
        ProgressState { total, completed: 0 }
    }

    /// One more step is done.
    pub fn inc(&mut self)
        requires
            old(self).done() < usize::MAX,
        ensures
            final(self).done() == old(self).done() + 1,
            final(self).goal() == old(self).goal(),
    {
        self.completed = self.completed + 1;
    }

    /// `n` more steps are done.
    pub fn inc_by(&mut self, n: usize)
        requires
            old(self).done() + n <= usize::MAX,
        ensures
            final(self).done() == old(self).done() + n,
            final(self).goal() == old(self).goal(),
    {
        self.completed = self.completed + n;
    }

    /// The number of steps done.
    pub fn completed(&self) -> (n: usize)
        ensures
            n == self.done(),
    {
        self.completed
    }

    /// The number of steps in all.
    pub fn total(&self) -> (n: usize)
        ensures
            n == self.goal(),
    {
        self.total
    }

    /// Whether every step is done.
    pub fn is_complete(&self) -> (r: bool)
        ensures
            r == (self.done() >= self.goal()),
    {
        self.completed >= self.total
    }
}

/// How progress is to be drawn.
#[derive(Debug)]
pub struct ProgressOptions {
    pub show_percentage: bool,
    pub show_elapsed: bool,
    pub show_eta: bool,
    pub template: Option<String>,
    pub bar_char: Option<String>,
    pub empty_char: Option<String>,
}

impl Default for ProgressOptions {
    fn default() -> (r: Self)
        ensures
            !r.show_percentage,
            !r.show_elapsed,
            !r.show_eta,
            r.template is None,
            r.bar_char is None,
            r.empty_char is None,
    {
        ProgressOptions {
            show_percentage: false,
            show_elapsed: false,
            show_eta: false,
            template: None,
            bar_char: None,
            empty_char: None,
        }
    }
}

impl ProgressOptions {
    /// Options that show nothing but the bar.
    pub fn new() -> (r: Self)
        ensures
            !r.show_percentage,
            !r.show_elapsed,
            !r.show_eta,
            r.template is None,
            r.bar_char is None,
            r.empty_char is None,
    {
        ProgressOptions {
            show_percentage: false,
            show_elapsed: false,
            show_eta: false,
            template: None,
            bar_char: None,
            empty_char: None,
        }
    }

    /// The options with the percentage shown or not.
    pub fn with_percentage(self, enabled: bool) -> (r: Self)
        ensures
            r == (ProgressOptions { show_percentage: enabled, ..self }),
    {
        let mut r = self;
        r.show_percentage = enabled;
        r
    }

    /// The options with the elapsed time shown or not.
    pub fn with_elapsed(self, enabled: bool) -> (r: Self)
        ensures
            r == (ProgressOptions { show_elapsed: enabled, ..self }),
    {
        let mut r = self;
        r.show_elapsed = enabled;
        r
    }

    /// The options with the estimated time shown or not.
    pub fn with_eta(self, enabled: bool) -> (r: Self)
        ensures
            r == (ProgressOptions { show_eta: enabled, ..self }),
    {
        let mut r = self;
        r.show_eta = enabled;
        r
    }

    /// The options with `template` as the bar's template.
    pub fn with_template(self, template: &str) -> (r: Self)
        ensures
            r.template is Some,
            r.template->0@ == template@,
            r.show_percentage == self.show_percentage,
            r.show_elapsed == self.show_elapsed,
            r.show_eta == self.show_eta,
            r.bar_char == self.bar_char,
            r.empty_char == self.empty_char,
    {
        let mut r = self;
        r.template = Some(template.to_owned());
        r
    }

    /// The options with the characters of the filled and of the empty part
    /// of the bar.
    pub fn with_chars(self, filled: &str, empty: &str) -> (r: Self)
        ensures
            r.bar_char is Some,
            r.bar_char->0@ == filled@,
            r.empty_char is Some,
            r.empty_char->0@ == empty@,
            r.show_percentage == self.show_percentage,
            r.show_elapsed == self.show_elapsed,
            r.show_eta == self.show_eta,
            r.template == self.template,
    {
        let mut r = self;
        r.bar_char = Some(filled.to_owned());
        r.empty_char = Some(empty.to_owned());
        r
    }
}

/// A number in decimal digits.
pub fn format_number(num: usize) -> (text: String)
    ensures
        text@ == decimal(num as nat),
{
    decimal_text(num as u64)
}

/// The text that `indicatif::HumanDuration` writes for a duration of `secs`
/// seconds and `nanos` nanoseconds.
pub uninterp spec fn human_duration(secs: u64, nanos: u32) -> Seq<char>;

/// A duration in words, such as `10 seconds` or `2 minutes`.
///
/// Calls the `Display` of `indicatif::HumanDuration`, which picks the
/// largest fitting unit from years down to seconds and rounds to it; the text
/// depends on the duration alone. The contract gives the text its name and
/// claims nothing else of it. The nanoseconds must be below a second's, as
/// `Duration::new` would otherwise have to carry.
#[verifier::external_body]
pub fn format_duration(secs: u64, nanos: u32) -> (text: String)
    requires
        nanos < 1_000_000_000,
    ensures
        text@ == human_duration(secs, nanos),
{
    indicatif::HumanDuration(std::time::Duration::new(secs, nanos)).to_string()
}

} // verus!
