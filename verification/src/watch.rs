//! What the driver does when Gazelle says the configuration has changed.
//!
//! The rules, which are the whole of what this module decides:
//!
//! - **A configuration that does not parse, or that names a device this PC does not have, is
//!   refused.** What is in force stays in force and the reason is written down. A DAW is never
//!   handed a broken plan.
//! - **If nothing is streaming, the new plan is simply adopted**, quietly, there and then.
//! - **If a DAW is streaming, the host is asked to reset**, and the new plan is taken up when the
//!   DAW comes back for its buffers. It is queued first, so that it is there when the DAW comes
//!   back.
//!
//! Everything a reload touches is behind [`Reload`], so the policy is decided against a driver
//! made of data.
use vstd::prelude::*;
use crate::config::Config;
use crate::text::{append_str, digits, number_u64};

verus! {

/// What one reload turned into.
#[derive(Clone, Copy, Debug, PartialEq, Eq, Structural)]
pub enum Outcome {
    /// Nothing was streaming, so the new plan is in force now.
    Adopted,
    /// A DAW was streaming, so the host was asked to reset. The plan is taken up when it comes
    /// back for buffers.
    ResetAsked,
    /// It was refused, and what was in force stays in force.
    Refused,
}

/// One thing asked of the driver, with what came back.
pub enum Call {
    /// The configuration file was read again: the configuration and where it came from, or why
    /// it could not be read.
    Read(Result<(Config, Seq<char>), Seq<char>>),
    /// A configuration was checked, and this is what was wrong with it, if anything.
    Check(Config, Option<Seq<char>>),
    /// Whether a DAW had the driver open with its buffers made.
    Streaming(bool),
    /// A configuration was taken now, from this source, as this generation, and this is why it
    /// would not open, if it would not.
    Adopt(Config, Seq<char>, u64, Option<Seq<char>>),
    /// A configuration was kept for the DAW's next request for buffers.
    Queue(Config, Seq<char>, u64),
    /// The DAW was asked to put the driver down and pick it up again.
    AskReset,
    /// A generation was refused, and why.
    Refused(u64, Seq<char>),
    /// A generation is in force, from this source.
    Adopted(u64, Seq<char>),
}

/// A result that is only ever an objection, as the objection.
pub open spec fn objection(result: Result<(), String>) -> Option<Seq<char>> {
    match result {
        Ok(_) => None,
        Err(why) => Some(why@),
    }
}

/// What reading the file gave, as text.
pub open spec fn as_read(read: Result<(Config, String), String>) -> Result<(Config, Seq<char>), Seq<char>> {
    match read {
        Ok((config, source)) => Ok((config, source@)),
        Err(why) => Err(why@),
    }
}

/// What the watcher can do to the driver.
///
/// Each call is written down in [`Reload::calls`], with what came back, in the order it was made.
pub trait Reload {
    /// Everything asked of the driver so far, in order.
    spec fn calls(&self) -> Seq<Call>;

    /// Read the configuration file again.
    fn read_config(&mut self) -> (read: Result<(Config, String), String>)
        ensures
            final(self).calls() == old(self).calls().push(Call::Read(as_read(read))),
    ;

    /// Whether this configuration could be run at all, without opening anything: every device it
    /// names is on this PC.
    fn check(&mut self, config: &Config) -> (checked: Result<(), String>)
        ensures
            final(self).calls() == old(self).calls().push(Call::Check(*config, objection(checked))),
    ;

    /// Whether a DAW has the driver open with its buffers made.
    fn is_streaming(&mut self) -> (streaming: bool)
        ensures
            final(self).calls() == old(self).calls().push(Call::Streaming(streaming)),
    ;

    /// Take it now. Only called when nothing is streaming.
    fn adopt(&mut self, config: Config, source: String, generation: u64) -> (adopted: Result<(), String>)
        ensures
            final(self).calls() == old(self).calls().push(
                Call::Adopt(config, source@, generation, objection(adopted)),
            ),
    ;

    /// Take it at the next request for buffers. Only called when a DAW is streaming.
    fn queue(&mut self, config: Config, source: String, generation: u64)
        ensures
            final(self).calls() == old(self).calls().push(Call::Queue(config, source@, generation)),
    ;

    /// Ask the DAW to put the driver down and pick it up again.
    fn ask_host_to_reset(&mut self)
        ensures
            final(self).calls() == old(self).calls().push(Call::AskReset),
    ;

    fn refused(&mut self, generation: u64, why: &str)
        ensures
            final(self).calls() == old(self).calls().push(Call::Refused(generation, why@)),
    ;

    fn adopted(&mut self, generation: u64, source: &str)
        ensures
            final(self).calls() == old(self).calls().push(Call::Adopted(generation, source@)),
    ;
}

/// What a reload of `generation` asks of the driver, from what came back along the way, and what
/// it turns into. `asked` is the calls it made, in order.
pub open spec fn spec_reload(asked: Seq<Call>, generation: u64, outcome: Outcome) -> bool {
    &&& asked.len() >= 2
    &&& match asked[0] {
        Call::Read(Err(why)) => asked =~= seq![asked[0], Call::Refused(generation, why)] && outcome
            == Outcome::Refused,
        Call::Read(Ok((config, source))) => asked.len() >= 3 && match asked[1] {
            Call::Check(checked, Some(why)) => checked == config && asked =~= seq![
                asked[0],
                asked[1],
                Call::Refused(generation, why),
            ] && outcome == Outcome::Refused,
            Call::Check(checked, None) => checked == config && match asked[2] {
                Call::Streaming(true) => asked =~= seq![
                    asked[0],
                    asked[1],
                    asked[2],
                    Call::Queue(config, source, generation),
                    Call::AskReset,
                ] && outcome == Outcome::ResetAsked,
                Call::Streaming(false) => asked.len() >= 4 && match asked[3] {
                    Call::Adopt(taken, from, as_generation, refusal) => {
                        &&& taken == config
                        &&& from == source
                        &&& as_generation == generation
                        &&& match refusal {
                            None => asked =~= seq![
                                asked[0],
                                asked[1],
                                asked[2],
                                asked[3],
                                Call::Adopted(generation, source),
                            ] && outcome == Outcome::Adopted,
                            Some(why) => asked =~= seq![
                                asked[0],
                                asked[1],
                                asked[2],
                                asked[3],
                                Call::Refused(generation, why),
                            ] && outcome == Outcome::Refused,
                        }
                    },
                    _ => false,
                },
                _ => false,
            },
            _ => false,
        },
        _ => false,
    }
}

/// **One reload, start to finish.** The file is read and checked; a refusal of either is written
/// down and nothing else is touched. With a DAW streaming, the configuration is queued and then the
/// host is asked to reset, once. Otherwise it is adopted, and either written down as in force or
/// refused with the reason it would not open.
pub fn reload<R: Reload>(target: &mut R, generation: u64) -> (outcome: Outcome)
    ensures
        final(target).calls().len() >= old(target).calls().len(),
        final(target).calls().take(old(target).calls().len() as int) == old(target).calls(),
        spec_reload(final(target).calls().skip(old(target).calls().len() as int), generation, outcome),
{
    let ghost before = target.calls();
    let read = target.read_config();
    let (config, source) = match read {
        Ok(read) => read,
        Err(why) => {
            target.refused(generation, why.as_str());
            assert(target.calls().skip(before.len() as int) =~= seq![
                target.calls()[before.len() as int],
                target.calls()[before.len() as int + 1],
            ]);
            assert(target.calls().take(before.len() as int) =~= before);
            return Outcome::Refused;
        },
    };
    let checked = target.check(&config);
    if let Err(why) = checked {
        target.refused(generation, why.as_str());
        assert(target.calls().skip(before.len() as int) =~= seq![
            target.calls()[before.len() as int],
            target.calls()[before.len() as int + 1],
            target.calls()[before.len() as int + 2],
        ]);
        assert(target.calls().take(before.len() as int) =~= before);
        return Outcome::Refused;
    }
    let streaming = target.is_streaming();
    if streaming {
        target.queue(config, source, generation);
        target.ask_host_to_reset();
        assert(target.calls().skip(before.len() as int) =~= seq![
            target.calls()[before.len() as int],
            target.calls()[before.len() as int + 1],
            target.calls()[before.len() as int + 2],
            target.calls()[before.len() as int + 3],
            target.calls()[before.len() as int + 4],
        ]);
        assert(target.calls().take(before.len() as int) =~= before);
        return Outcome::ResetAsked;
    }
    let kept = source.clone();
    let adopted = target.adopt(config, source, generation);
    let outcome = match adopted {
        Ok(()) => {
            target.adopted(generation, kept.as_str());
            Outcome::Adopted
        },
        Err(why) => {
            target.refused(generation, why.as_str());
            Outcome::Refused
        },
    };
    assert(target.calls().skip(before.len() as int) =~= seq![
        target.calls()[before.len() as int],
        target.calls()[before.len() as int + 1],
        target.calls()[before.len() as int + 2],
        target.calls()[before.len() as int + 3],
        target.calls()[before.len() as int + 4],
    ]);
    assert(target.calls().take(before.len() as int) =~= before);
    outcome
}

/// **A refusal leaves what is in force alone**: a reload that is refused never queues anything,
/// never asks the host to reset, and never writes a generation down as in force.
pub proof fn law_a_refused_configuration_is_never_put_in_force(asked: Seq<Call>, generation: u64)
    requires
        spec_reload(asked, generation, Outcome::Refused),
    ensures
        forall|k: int|
            0 <= k < asked.len() ==> !(#[trigger] asked[k] is Queue) && !(asked[k] is AskReset) && !(
            asked[k] is Adopted),
{
}

/// **The host is asked to reset exactly once, and only while a DAW is streaming**, and what it
/// will come back for is queued before it is asked.
pub proof fn law_the_host_is_asked_to_reset_once_and_only_while_streaming(asked: Seq<Call>, generation: u64, outcome: Outcome)
    requires
        spec_reload(asked, generation, outcome),
    ensures
        outcome == Outcome::ResetAsked <==> exists|k: int| 0 <= k < asked.len() && #[trigger] asked[k] is AskReset,
        outcome == Outcome::ResetAsked ==> asked[2] == Call::Streaming(true) && asked.len() == 5 && asked[3] is Queue
            && asked[4] is AskReset,
        (exists|k: int| 0 <= k < asked.len() && #[trigger] asked[k] == Call::Streaming(false)) ==> forall|k: int|
            0 <= k < asked.len() ==> !(#[trigger] asked[k] is AskReset) && !(asked[k] is Queue),
{
    if outcome == Outcome::ResetAsked {
        assert(asked[4] is AskReset);
    }
}

/// A driver made of data, for saying what a reload does: it answers from what it was given, and
/// writes down what it was asked to do in words.
pub struct Scripted {
    /// Whether a DAW has the buffers.
    pub streaming: bool,
    /// What reading the file gives: a configuration and where it came from, or why it could not be
    /// read.
    pub config: Result<(Config, String), String>,
    /// What checking a configuration objects to, if anything.
    pub objection: Option<String>,
    /// Why adopting a configuration would not open, if it would not.
    pub adoption: Option<String>,
    /// What was done, in words, in order.
    pub done: Vec<String>,
    /// The key of the first device the configuration in force names.
    pub in_force: String,
    /// What it was asked, in order.
    pub asked: Ghost<Seq<Call>>,
}

impl Scripted {
    /// A driver with `in_force` in force, whose file reads as `config` from `source`, with no DAW
    /// and nothing to object to.
    pub fn new(config: Config, source: String, in_force: String) -> (driver: Scripted)
        ensures
            driver.calls() == Seq::<Call>::empty(),
            !driver.streaming,
            driver.config == Ok::<(Config, String), String>((config, source)),
            driver.objection.is_none(),
            driver.adoption.is_none(),
            driver.done@.len() == 0,
            driver.in_force == in_force,
    {
        Scripted {
            streaming: false,
            config: Ok((config, source)),
            objection: None,
            adoption: None,
            done: Vec::new(),
            in_force,
            asked: Ghost(Seq::empty()),
        }
    }

    fn note(&mut self, what: String)
        ensures
            final(self).calls() == old(self).calls(),
            final(self).done@ == old(self).done@.push(what),
            final(self).streaming == old(self).streaming,
            final(self).in_force == old(self).in_force,
    {
        self.done.push(what);
    }

    /// "refused" or "adopted", the generation, and what goes with it.
    fn noted(word: &str, generation: u64, rest: Option<&str>) -> (line: String)
        ensures
            line@ == word@ + " "@ + digits(generation as nat) + match rest {
                Some(rest) => ": "@ + rest@,
                None => Seq::<char>::empty(),
            },
    {
        proof {
            reveal_strlit(" ");
            reveal_strlit(": ");
        }
        let mut line = String::from_str(word);
        append_str(&mut line, " ");
        let said = number_u64(generation);
        append_str(&mut line, said.as_str());
        if let Some(rest) = rest {
            append_str(&mut line, ": ");
            append_str(&mut line, rest);
        }
        line
    }
}

impl Reload for Scripted {
    open spec fn calls(&self) -> Seq<Call> {
        self.asked@
    }

    fn read_config(&mut self) -> (read: Result<(Config, String), String>) {
        let read = match &self.config {
            Ok((config, source)) => Ok((config.clone(), source.clone())),
            Err(why) => Err(why.clone()),
        };
        self.asked = Ghost(self.asked@.push(Call::Read(as_read(read))));
        read
    }

    fn check(&mut self, config: &Config) -> (checked: Result<(), String>)
        ensures
            checked == match old(self).objection {
                Some(why) => Err::<(), String>(why),
                None => Ok(()),
            },
    {
        let checked = match &self.objection {
            Some(why) => Err(why.clone()),
            None => Ok(()),
        };
        self.asked = Ghost(self.asked@.push(Call::Check(*config, objection(checked))));
        checked
    }

    fn is_streaming(&mut self) -> (streaming: bool)
        ensures
            streaming == old(self).streaming,
    {
        let streaming = self.streaming;
        self.asked = Ghost(self.asked@.push(Call::Streaming(streaming)));
        streaming
    }

    fn adopt(&mut self, config: Config, source: String, generation: u64) -> (adopted: Result<(), String>)
        ensures
            adopted == match old(self).adoption {
                Some(why) => Err::<(), String>(why),
                None => Ok(()),
            },
            adopted is Err ==> final(self).in_force == old(self).in_force,
    {
        let ghost taken = config;
        let ghost from = source@;
        let adopted = match &self.adoption {
            Some(why) => Err(why.clone()),
            None => Ok(()),
        };
        if adopted.is_err() {
            self.note(String::from_str("adopt refused"));
        } else {
            self.note(String::from_str("adopt"));
            self.in_force = if config.devices.len() > 0 {
                match &config.devices[0].key {
                    Some(key) => key.clone(),
                    None => String::new(),
                }
            } else {
                String::new()
            };
        }
        self.asked = Ghost(self.asked@.push(Call::Adopt(taken, from, generation, objection(adopted))));
        adopted
    }

    fn queue(&mut self, config: Config, source: String, generation: u64) {
        self.note(String::from_str("queue"));
        self.asked = Ghost(self.asked@.push(Call::Queue(config, source@, generation)));
    }

    fn ask_host_to_reset(&mut self) {
        self.note(String::from_str("reset"));
        self.asked = Ghost(self.asked@.push(Call::AskReset));
    }

    fn refused(&mut self, generation: u64, why: &str) {
        let line = Scripted::noted("refused", generation, Some(why));
        self.note(line);
        self.asked = Ghost(self.asked@.push(Call::Refused(generation, why@)));
    }

    fn adopted(&mut self, generation: u64, source: &str) {
        let line = Scripted::noted("adopted", generation, None);
        self.note(line);
        self.asked = Ghost(self.asked@.push(Call::Adopted(generation, source@)));
    }
}

} // verus!
