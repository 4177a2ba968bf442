//! The launcher: a fixed list of URLs and a fixed pause, turned into the
//! ordered actions that open each URL in the default browser.
use crate::escape::{escape_for_shell, escaped};
use vstd::prelude::*;

verus! {

/// A child process to start: a program and its arguments.
#[derive(Debug, PartialEq, Eq)]
pub struct ShellCommand {
    pub program: String,
    pub args: Vec<String>,
}

/// One step of a run: start a process without waiting for it, or pause the
/// calling thread for a number of milliseconds.
#[derive(Debug, PartialEq, Eq)]
pub enum Action {
    Spawn(ShellCommand),
    Sleep(u32),
}

/// What a step of a run is, as plain values.
pub enum Step {
    Spawn(Seq<char>, Seq<Seq<char>>),
    Sleep(nat),
}

impl View for ShellCommand {
    type V = (Seq<char>, Seq<Seq<char>>);

    open spec fn view(&self) -> (Seq<char>, Seq<Seq<char>>) {
        (self.program@, self.args@.map_values(|a: String| a@))
    }
}

impl View for Action {
    type V = Step;

    open spec fn view(&self) -> Step {
        match self {
            Action::Spawn(c) => Step::Spawn(c@.0, c@.1),
            Action::Sleep(ms) => Step::Sleep(*ms as nat),
        }
    }
}

/// The command line that opens `url`: `cmd /c start <escaped url>`.
pub open spec fn open_command_line(url: Seq<char>) -> (Seq<char>, Seq<Seq<char>>) {
    ("cmd"@, seq!["/c"@, "start"@, escaped(url)])
}

/// The step that opens `url`.
pub open spec fn open_step(url: Seq<char>) -> Step {
    Step::Spawn(open_command_line(url).0, open_command_line(url).1)
}

/// Every step of a run over `urls` with a pause of `delay` milliseconds:
/// each URL in list order is opened and followed by one pause.
pub open spec fn planned(urls: Seq<Seq<char>>, delay: nat) -> Seq<Step>
    decreases urls.len(),
{
    if urls.len() == 0 {
        Seq::empty()
    } else {
        planned(urls.drop_last(), delay) + seq![open_step(urls.last()), Step::Sleep(delay)]
    }
}

/// Position `2 * i` of a run opens the `i`-th URL and position `2 * i + 1`
/// is the pause after it; there are no other steps.
pub proof fn lemma_planned_shape(urls: Seq<Seq<char>>, delay: nat)
    ensures
        planned(urls, delay).len() == 2 * urls.len(),
        forall|i: int|
            0 <= i < urls.len() ==> #[trigger] planned(urls, delay)[2 * i] == open_step(urls[i]),
        forall|i: int|
            0 <= i < urls.len() ==> #[trigger] planned(urls, delay)[2 * i + 1] == Step::Sleep(
                delay,
            ),
    decreases urls.len(),
{
    if urls.len() > 0 {
        let init = urls.drop_last();
        lemma_planned_shape(init, delay);
        let p = planned(urls, delay);
        let q = planned(init, delay);
        assert forall|i: int| 0 <= i < urls.len() implies #[trigger] p[2 * i] == open_step(
            urls[i],
        ) && p[2 * i + 1] == Step::Sleep(delay) by {
            if i < init.len() {
                assert(p[2 * i] == q[2 * i]);
                assert(p[2 * i + 1] == q[2 * i + 1]);
            } else {
                assert(i == init.len());
            }
        }
    }
}

/// Each URL of the list is opened exactly once, in list order: the steps that
/// start a process are exactly the even positions of the run, and the one at
/// position `2 * i` opens the `i`-th URL. None is skipped or moved.
pub proof fn law_each_url_opened_once_in_order(urls: Seq<Seq<char>>, delay: nat)
    ensures
        planned(urls, delay).len() == 2 * urls.len(),
        forall|j: int|
            0 <= j < planned(urls, delay).len() ==> (#[trigger] planned(urls, delay)[j] is Spawn
                <==> j % 2 == 0),
        forall|i: int|
            0 <= i < urls.len() ==> #[trigger] planned(urls, delay)[2 * i] == open_step(urls[i]),
{
    lemma_planned_shape(urls, delay);
    let p = planned(urls, delay);
    assert forall|j: int| 0 <= j < p.len() implies (#[trigger] p[j] is Spawn <==> j % 2 == 0) by {
        let i = j / 2;
        if j % 2 == 0 {
            assert(j == 2 * i);
            assert(p[2 * i] == open_step(urls[i]));
        } else {
            assert(j == 2 * i + 1);
            assert(p[2 * i + 1] == Step::Sleep(delay));
        }
    }
}

/// Between two consecutive launches there is exactly one step, a pause of
/// the configured length; every pause of a run has that length.
pub proof fn law_fixed_pause_between_launches(urls: Seq<Seq<char>>, delay: nat)
    ensures
        forall|j: int, k: int|
            #![trigger planned(urls, delay)[j], planned(urls, delay)[k]]
            0 <= j < k < planned(urls, delay).len() && planned(urls, delay)[j] is Spawn
                && planned(urls, delay)[k] is Spawn && (forall|m: int|
                j < m < k ==> !(#[trigger] planned(urls, delay)[m] is Spawn)) ==> k == j + 2
                && planned(urls, delay)[j + 1] == Step::Sleep(delay),
        forall|j: int|
            0 <= j < planned(urls, delay).len() && #[trigger] planned(urls, delay)[j] is Sleep
                ==> planned(urls, delay)[j] == Step::Sleep(delay),
{
    law_each_url_opened_once_in_order(urls, delay);
    lemma_planned_shape(urls, delay);
    let p = planned(urls, delay);
    assert forall|j: int, k: int|
        #![trigger p[j], p[k]]
        0 <= j < k < p.len() && p[j] is Spawn && p[k] is Spawn && (forall|m: int|
            j < m < k ==> !(#[trigger] p[m] is Spawn)) implies k == j + 2 && p[j + 1]
        == Step::Sleep(delay) by {
        assert(j % 2 == 0);
        assert(k % 2 == 0);
        if k > j + 2 {
            assert(p[j + 2] is Spawn);
        }
        assert(p[2 * (j / 2) + 1] == Step::Sleep(delay));
    }
    assert forall|j: int| 0 <= j < p.len() && #[trigger] p[j] is Sleep implies p[j]
        == Step::Sleep(delay) by {
        assert(j % 2 == 1);
        assert(j == 2 * (j / 2) + 1);
    }
}

/// An empty list of URLs gives a run with no step at all.
pub proof fn law_no_urls_no_steps(delay: nat)
    ensures
        planned(Seq::empty(), delay) == Seq::<Step>::empty(),
{
}

/// The command that opens `url` in the default browser through the shell.
pub fn open_command(url: &str) -> (r: ShellCommand)
    ensures
        r@ == open_command_line(url@),
{
    let mut args: Vec<String> = Vec::new();
    args.push(String::from_str("/c"));
    args.push(String::from_str("start"));
    args.push(escape_for_shell(url));
    let r = ShellCommand { program: String::from_str("cmd"), args };
    assert(r@.1 =~= seq!["/c"@, "start"@, escaped(url@)]);
    r
}

/// A list of URLs to open in order, with the pause after each launch.
pub struct Launcher {
    urls: Vec<String>,
    delay_ms: u32,
}

impl Launcher {
    /// The URLs, in launch order.
    pub closed spec fn url_list(&self) -> Seq<Seq<char>> {
        self.urls@.map_values(|u: String| u@)
    }

    /// The pause after each launch, in milliseconds.
    pub closed spec fn delay(&self) -> nat {
        self.delay_ms as nat
    }

    /// A launcher over `urls`, pausing `delay_ms` milliseconds after each.
    pub fn new(urls: Vec<String>, delay_ms: u32) -> (r: Launcher)
        ensures
            r.url_list() == urls@.map_values(|u: String| u@),
            r.delay() == delay_ms as nat,
    {
        Launcher { urls, delay_ms }
    }

    /// The URLs, in launch order.
    pub fn urls(&self) -> (r: &Vec<String>)
        ensures
            r@.map_values(|u: String| u@) == self.url_list(),
    {
        &self.urls
    }

    /// The pause after each launch, in milliseconds.
    pub fn delay_ms(&self) -> (r: u32)
        ensures
            r as nat == self.delay(),
    {
        self.delay_ms
    }

    /// Every action of a run, in order: for each URL its launch, then a
    /// pause of the configured length.
    pub fn plan(&self) -> (r: Vec<Action>)
        ensures
            r@.map_values(|a: Action| a@) == planned(self.url_list(), self.delay()),
    {
        let mut r: Vec<Action> = Vec::new();
        let n = self.urls.len();
        for i in 0..n
            invariant
                n == self.url_list().len(),
                r@.map_values(|a: Action| a@) == planned(
                    self.url_list().take(i as int),
                    self.delay(),
                ),
        {
            let ghost before = r@;
            let cmd = open_command(self.urls[i].as_str());
            r.push(Action::Spawn(cmd));
            r.push(Action::Sleep(self.delay_ms));
            proof {
                let urls = self.url_list();
                assert(urls.take(i + 1).drop_last() =~= urls.take(i as int));
                assert(urls.take(i + 1).last() == self.urls@[i as int]@);
                assert(r@.map_values(|a: Action| a@) =~= before.map_values(|a: Action| a@)
                    + seq![open_step(urls[i as int]), Step::Sleep(self.delay())]);
            }
        }
        proof {
            assert(self.url_list().take(n as int) =~= self.url_list());
        }
        r
    }
}

} // verus!
