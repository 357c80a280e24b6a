use vstd::prelude::*;
use vstd::string::StringExecFns;

verus! {

/// The character of a decimal digit.
pub open spec fn digit_char(d: nat) -> char
    recommends
        d < 10,
{
    (d + 48) as char
}

/// The decimal text of a natural number: its digits, most significant first,
/// with no leading zero (zero itself is `"0"`).
pub open spec fn decimal(n: nat) -> Seq<char>
    decreases n,
{
    if n < 10 {
        seq![digit_char(n)]
    } else {
        decimal(n / 10).push(digit_char(n % 10))
    }
}

/// Whether a character is one of the ten decimal digits.
pub open spec fn is_digit(c: char) -> bool {
    '0' <= c && c <= '9'
}

/// The number that a text of decimal digits denotes, read in base 10.
pub open spec fn digits_value(text: Seq<char>) -> nat
    decreases text.len(),
{
    if text.len() == 0 {
        0
    } else {
        digits_value(text.drop_last()) * 10 + ((text.last() as int - '0' as int) as nat)
    }
}

/// The decimal text of a number denotes that number: it is a non-empty run of
/// digits, with no leading zero unless it is `"0"` itself, and read in base 10
/// it gives back the number.
pub proof fn lemma_decimal_denotes(n: nat)
    ensures
        decimal(n).len() >= 1,
        forall|i: int| 0 <= i < decimal(n).len() ==> is_digit(#[trigger] decimal(n)[i]),
        decimal(n)[0] == '0' ==> n == 0 && decimal(n).len() == 1,
        digits_value(decimal(n)) == n,
    decreases n,
{
    if n < 10 {
        assert(digits_value(decimal(n)) == digits_value(decimal(n).drop_last()) * 10 + n);
        assert(decimal(n).drop_last() =~= Seq::<char>::empty());
    } else {
        lemma_decimal_denotes(n / 10);
        let prev = decimal(n / 10);
        assert(decimal(n).drop_last() =~= prev);
        assert(decimal(n)[0] == prev[0]);
    }
}

/// Appends the character of the decimal digit `d` to `s`.
fn push_digit(s: &mut String, d: u8)
    requires
        d < 10,
    ensures
        final(s)@ == old(s)@.push(digit_char(d as nat)),
{
    match d {
        0 => {
            proof {
                reveal_strlit("0");
            }
            s.append("0");
        },
        1 => {
            proof {
                reveal_strlit("1");
            }
            s.append("1");
        },
        2 => {
            proof {
                reveal_strlit("2");
            }
            s.append("2");
        },
        3 => {
            proof {
                reveal_strlit("3");
            }
            s.append("3");
        },
        4 => {
            proof {
                reveal_strlit("4");
            }
            s.append("4");
        },
        5 => {
            proof {
                reveal_strlit("5");
            }
            s.append("5");
        },
        6 => {
            proof {
                reveal_strlit("6");
            }
            s.append("6");
        },
        7 => {
            proof {
                reveal_strlit("7");
            }
            s.append("7");
        },
        8 => {
            proof {
                reveal_strlit("8");
            }
            s.append("8");
        },
        _ => {
            proof {
                reveal_strlit("9");
            }
            s.append("9");
        },
    }
}

/// Appends the decimal text of `n` to `s`.
pub fn push_decimal(s: &mut String, n: u128)
    ensures
        final(s)@ == old(s)@ + decimal(n as nat),
    decreases n,
{
    if n >= 10 {
        push_decimal(s, n / 10);
    }
    let d: u8 = (n % 10) as u8;
    push_digit(s, d);
}

/// The text of a simulation's status: a JSON object with the elapsed time
/// (the text given for it) and the number of steps taken.
pub open spec fn status_text(elapsed: Seq<char>, steps: nat) -> Seq<char> {
    "{\"elapsed\": "@ + elapsed + ", \"steps\": "@ + decimal(steps) + "}"@
}

/// The steps field of the status is the step count written in decimal: the
/// text between `, "steps": ` and the closing brace is a run of digits with no
/// leading zero that, read in base 10, is the count itself.
pub proof fn lemma_status_shows_step_count(elapsed: Seq<char>, steps: nat)
    ensures
        ({
            let shown = decimal(steps);
            &&& status_text(elapsed, steps) == "{\"elapsed\": "@ + elapsed + ", \"steps\": "@ + shown
                + "}"@
            &&& digits_value(shown) == steps
            &&& forall|i: int| 0 <= i < shown.len() ==> is_digit(#[trigger] shown[i])
            &&& shown[0] == '0' ==> shown.len() == 1
        }),
{
    lemma_decimal_denotes(steps);
}

/// Renders the status of a simulation as a JSON string.
///
/// `elapsed` is the elapsed logical time in milliseconds as its float value
/// displays; it is put in as given. The steps are written in decimal.
pub fn status(elapsed: &str, steps: usize) -> (text: String)
    ensures
        text@ == status_text(elapsed@, steps as nat),
        text@ == "{\"elapsed\": "@ + elapsed@ + ", \"steps\": "@ + decimal(steps as nat) + "}"@,
{
    let mut text = String::from_str("{\"elapsed\": ");
    text.append(elapsed);
    text.append(", \"steps\": ");
    push_decimal(&mut text, steps as u128);
    text.append("}");
    text
}

/// Why a call into the simulation bindings failed. Each variant carries the
/// text of the failure underneath it.
pub enum BindingError {
    /// A host's address did not parse as an IP address.
    InvalidIpAddress(String),
    /// Running the simulation to its end failed.
    SimulationFailed(String),
    /// A single step of the simulation failed.
    StepFailed(String),
    /// A host's callback threw.
    HostCallback(String),
    /// A client's callback threw.
    ClientCallback(String),
}

impl BindingError {
    /// The fixed text that introduces the message of each kind of failure.
    pub open spec fn prefix(&self) -> Seq<char> {
        match self {
            BindingError::InvalidIpAddress(_) => "Invalid IP address: "@,
            BindingError::SimulationFailed(_) => "Simulation failed: "@,
            BindingError::StepFailed(_) => "Step failed: "@,
            BindingError::HostCallback(_) => "Host callback error: "@,
            BindingError::ClientCallback(_) => "Client callback error: "@,
        }
    }

    /// The text of the underlying failure.
    pub open spec fn detail(&self) -> Seq<char> {
        match self {
            BindingError::InvalidIpAddress(d) => d@,
            BindingError::SimulationFailed(d) => d@,
            BindingError::StepFailed(d) => d@,
            BindingError::HostCallback(d) => d@,
            BindingError::ClientCallback(d) => d@,
        }
    }

    /// The message reported for this failure: its prefix, then its detail.
    pub fn message(&self) -> (m: String)
        ensures
            m@ == self.prefix() + self.detail(),
    {
        let (prefix, detail) = match self {
            BindingError::InvalidIpAddress(d) => ("Invalid IP address: ", d),
            BindingError::SimulationFailed(d) => ("Simulation failed: ", d),
            BindingError::StepFailed(d) => ("Step failed: ", d),
            BindingError::HostCallback(d) => ("Host callback error: ", d),
            BindingError::ClientCallback(d) => ("Client callback error: ", d),
        };
        let mut m = String::from_str(prefix);
        m.append(detail.as_str());
        m
    }
}

/// What the driver of a stepped run asks for next.
pub enum StepAction {
    /// Take one more step of the simulation and report its outcome.
    Step,
    /// The run is over: every requested step was taken.
    Finished,
}

/// The decisions of a run of a fixed number of simulation steps, which stops
/// at the first step that fails. The caller takes the steps; the run says
/// whether another is due and what a step's outcome means.
pub struct StepRun {
    requested: usize,
    taken: usize,
}

/// The abstract state of a stepped run: steps requested, steps taken.
pub struct StepRunView {
    pub requested: nat,
    pub taken: nat,
}

/// The state of a run after one recorded outcome, and what that outcome
/// means for the caller: nothing for a successful step, the failure for a
/// failed one (after which the run is abandoned unchanged).
pub open spec fn record_spec(v: StepRunView, outcome: Result<bool, Seq<char>>) -> (
    StepRunView,
    Option<Seq<char>>,
) {
    match outcome {
        Ok(_) => (StepRunView { requested: v.requested, taken: v.taken + 1 }, None),
        Err(e) => (v, Some(e)),
    }
}

/// Feeds a sequence of step outcomes to a run, as long as it asks for steps
/// and no step has failed; gives the final state and the first failure.
pub open spec fn run_spec(v: StepRunView, outcomes: Seq<Result<bool, Seq<char>>>) -> (
    StepRunView,
    Option<Seq<char>>,
)
    decreases outcomes.len(),
{
    if outcomes.len() == 0 || v.taken >= v.requested {
        (v, None)
    } else {
        let (next, failure) = record_spec(v, outcomes[0]);
        match failure {
            Some(e) => (next, Some(e)),
            None => run_spec(next, outcomes.drop_first()),
        }
    }
}

/// An outcome as the run sees it: the step's result with the failure's text.
pub open spec fn outcome_view(outcome: Result<bool, String>) -> Result<bool, Seq<char>> {
    match outcome {
        Ok(done) => Ok(done),
        Err(e) => Err(e@),
    }
}

impl StepRun {
    pub closed spec fn view(&self) -> StepRunView {
        StepRunView { requested: self.requested as nat, taken: self.taken as nat }
    }

    #[verifier::type_invariant]
    spec fn wf(&self) -> bool {
        self.taken <= self.requested
    }

    /// A run that will ask for `requested` steps.
    pub fn new(requested: usize) -> (run: StepRun)
        ensures
            run.view() == (StepRunView { requested: requested as nat, taken: 0 }),
    {
        StepRun { requested, taken: 0 }
    }

    /// Steps taken so far.
    pub fn taken(&self) -> (n: usize)
        ensures
            n == self.view().taken,
    {
        self.taken
    }

    /// Whether another step is due.
    pub fn next_action(&self) -> (a: StepAction)
        ensures
            a is Step <==> self.view().taken < self.view().requested,
            a is Finished <==> self.view().taken == self.view().requested,
    {
        proof {
            use_type_invariant(self);
        }
        if self.taken < self.requested {
            StepAction::Step
        } else {
            StepAction::Finished
        }
    }

    /// Records the outcome of the step just taken. A successful step (whether
    /// or not it finished the simulation) counts and the run goes on; a failed
    /// one ends the run with `StepFailed` and the failure's text.
    pub fn record(&mut self, outcome: Result<bool, String>) -> (r: Result<(), BindingError>)
        requires
            old(self).view().taken < old(self).view().requested,
        ensures
            (final(self).view(), match r {
                Ok(()) => None::<Seq<char>>,
                Err(e) => Some(e.detail()),
            }) == record_spec(old(self).view(), outcome_view(outcome)),
            r is Err ==> r->Err_0 is StepFailed,
    {
        match outcome {
            Ok(_) => {
                self.taken = self.taken + 1;
                Ok(())
            },
            Err(e) => Err(BindingError::StepFailed(e)),
        }
    }
}

/// A run of `n` steps in which every step succeeds takes exactly `n` steps
/// and reports no failure; outcomes past the `n`-th are never asked for.
pub proof fn lemma_successful_run_takes_all_steps(
    n: nat,
    outcomes: Seq<Result<bool, Seq<char>>>,
)
    requires
        n <= outcomes.len(),
        forall|i: int| 0 <= i < outcomes.len() ==> #[trigger] outcomes[i] is Ok,
    ensures
        run_spec(StepRunView { requested: n, taken: 0 }, outcomes) == (
        StepRunView { requested: n, taken: n }, None::<Seq<char>>),
{
    lemma_successes_from(n, 0, outcomes);
}

proof fn lemma_successes_from(n: nat, k: nat, outcomes: Seq<Result<bool, Seq<char>>>)
    requires
        k <= n,
        n - k <= outcomes.len(),
        forall|i: int| 0 <= i < outcomes.len() ==> #[trigger] outcomes[i] is Ok,
    ensures
        run_spec(StepRunView { requested: n, taken: k }, outcomes) == (
        StepRunView { requested: n, taken: n }, None::<Seq<char>>),
    decreases outcomes.len(),
{
    if k < n {
        assert(outcomes[0] is Ok);
        let rest = outcomes.drop_first();
        assert forall|i: int| 0 <= i < rest.len() implies #[trigger] rest[i] is Ok by {
            assert(rest[i] == outcomes[i + 1]);
        }
        lemma_successes_from(n, k + 1, rest);
    }
}

/// A run stops at the first failing step: if the first `k` outcomes succeed
/// and the next one fails, with `k` below the number of steps requested,
/// the run has taken `k` steps and reports that failure.
pub proof fn lemma_run_stops_at_first_failure(
    n: nat,
    k: nat,
    outcomes: Seq<Result<bool, Seq<char>>>,
)
    requires
        k < n,
        k < outcomes.len(),
        forall|i: int| 0 <= i < k ==> #[trigger] outcomes[i] is Ok,
        outcomes[k as int] is Err,
    ensures
        run_spec(StepRunView { requested: n, taken: 0 }, outcomes) == (
        StepRunView { requested: n, taken: k }, Some(outcomes[k as int]->Err_0)),
{
    lemma_failure_from(n, 0, k, outcomes);
}

proof fn lemma_failure_from(n: nat, t: nat, k: nat, outcomes: Seq<Result<bool, Seq<char>>>)
    requires
        t + k < n,
        k < outcomes.len(),
        forall|i: int| 0 <= i < k ==> #[trigger] outcomes[i] is Ok,
        outcomes[k as int] is Err,
    ensures
        run_spec(StepRunView { requested: n, taken: t }, outcomes) == (
        StepRunView { requested: n, taken: t + k }, Some(outcomes[k as int]->Err_0)),
    decreases k,
{
    if k > 0 {
        assert(outcomes[0] is Ok);
        let rest = outcomes.drop_first();
        assert forall|i: int| 0 <= i < k - 1 implies #[trigger] rest[i] is Ok by {
            assert(rest[i] == outcomes[i + 1]);
        }
        assert(rest[k - 1] == outcomes[k as int]);
        lemma_failure_from(n, t + 1, (k - 1) as nat, rest);
    }
}

/// Shifting a run's count of steps requested and taken by the same amount
/// changes nothing but the count of steps taken.
proof fn lemma_run_shift(c: nat, v: StepRunView, outcomes: Seq<Result<bool, Seq<char>>>)
    ensures
        ({
            let (end, failure) = run_spec(v, outcomes);
            run_spec(StepRunView { requested: v.requested + c, taken: v.taken + c }, outcomes) == (
            StepRunView { requested: v.requested + c, taken: end.taken + c }, failure)
        }),
        run_spec(v, outcomes).0.requested == v.requested,
    decreases outcomes.len(),
{
    if outcomes.len() == 0 || v.taken >= v.requested {
    } else {
        let (next, failure) = record_spec(v, outcomes[0]);
        if failure is None {
            lemma_run_shift(c, next, outcomes.drop_first());
        }
    }
}

proof fn lemma_runs_compose_from(
    r: nat,
    t: nat,
    b: nat,
    outcomes: Seq<Result<bool, Seq<char>>>,
)
    requires
        t <= r,
        r - t <= outcomes.len(),
        run_spec(StepRunView { requested: r, taken: t }, outcomes).1 is None,
    ensures
        run_spec(StepRunView { requested: r, taken: t }, outcomes).0.taken == r,
        ({
            let (second, failure) = run_spec(
                StepRunView { requested: b, taken: 0 },
                outcomes.skip(r - t),
            );
            run_spec(StepRunView { requested: r + b, taken: t }, outcomes) == (
            StepRunView { requested: r + b, taken: r + second.taken }, failure)
        }),
    decreases outcomes.len(),
{
    if t == r {
        assert(outcomes.skip(0) =~= outcomes);
        lemma_run_shift(r, StepRunView { requested: b, taken: 0 }, outcomes);
    } else {
        assert(outcomes[0] is Ok);
        let rest = outcomes.drop_first();
        assert(rest.skip(r - (t + 1)) =~= outcomes.skip(r - t));
        lemma_runs_compose_from(r, t + 1, b, rest);
    }
}

/// Stepped runs compose: a run of `a` steps that ends without a failure,
/// followed by a run of `b` steps over the outcomes that come after, ends as
/// one run of `a + b` steps does: the same steps taken in all, and the same
/// failure, if any. A run of no steps takes none and reports nothing.
pub proof fn lemma_runs_compose(a: nat, b: nat, outcomes: Seq<Result<bool, Seq<char>>>)
    requires
        a <= outcomes.len(),
        run_spec(StepRunView { requested: a, taken: 0 }, outcomes).1 is None,
    ensures
        run_spec(StepRunView { requested: a, taken: 0 }, outcomes).0.taken == a,
        ({
            let (second, failure) = run_spec(
                StepRunView { requested: b, taken: 0 },
                outcomes.skip(a as int),
            );
            run_spec(StepRunView { requested: a + b, taken: 0 }, outcomes) == (
            StepRunView { requested: a + b, taken: a + second.taken }, failure)
        }),
        run_spec(StepRunView { requested: 0, taken: 0 }, outcomes) == (
        StepRunView { requested: 0, taken: 0 }, None::<Seq<char>>),
{
    lemma_runs_compose_from(a, 0, b, outcomes);
}

} // verus!
