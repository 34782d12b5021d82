//! The decisions of one run: splitting commands into words, what a command's
//! outcome means for the run, and the refusal of a target seen twice.
use vstd::prelude::*;
use vstd::string::StringExecFns;
use vstd::string::StrSliceExecFns;
use crate::block::{sync_content, synced};
use crate::config::AppendConfig;
use crate::text::{chars_of, texts};

verus! {

/// Whether `c` is white space in the sense of Unicode's `White_Space`
/// property, which `char::is_whitespace` follows.
pub open spec fn is_white(c: char) -> bool {
    let u = c as u32;
    (0x09 <= u && u <= 0x0D) || u == 0x20 || u == 0x85 || u == 0xA0 || u == 0x1680 || (0x2000 <= u
        && u <= 0x200A) || u == 0x2028 || u == 0x2029 || u == 0x202F || u == 0x205F || u == 0x3000
}

/// Decides `is_white`.
pub fn is_white_char(c: char) -> (r: bool)
    ensures
        r == is_white(c),
{
    let u = c as u32;
    (0x09 <= u && u <= 0x0D) || u == 0x20 || u == 0x85 || u == 0xA0 || u == 0x1680 || (0x2000 <= u
        && u <= 0x200A) || u == 0x2028 || u == 0x2029 || u == 0x202F || u == 0x205F || u == 0x3000
}

/// The word `cur`, if it is not empty.
pub open spec fn word(cur: Seq<char>) -> Seq<Seq<char>> {
    if cur.len() == 0 {
        seq![]
    } else {
        seq![cur]
    }
}

/// The words of `s`, where `cur` holds the part of the current word read
/// before `s`: the maximal runs of characters that are not white space.
pub open spec fn words_from(s: Seq<char>, cur: Seq<char>) -> Seq<Seq<char>>
    decreases s.len(),
{
    if s.len() == 0 {
        word(cur)
    } else if is_white(s[0]) {
        word(cur) + words_from(s.drop_first(), seq![])
    } else {
        words_from(s.drop_first(), cur.push(s[0]))
    }
}

/// The words of `s`.
pub open spec fn words_of(s: Seq<char>) -> Seq<Seq<char>> {
    words_from(s, seq![])
}

/// Splits a command into its words: the program, then its arguments. There
/// is no quoting: white space always separates.
pub fn split_command(command: &str) -> (r: Vec<String>)
    ensures
        texts(r@) == words_of(command@),
{
    let cs = chars_of(command);
    let n = cs.len();
    let mut r: Vec<String> = Vec::new();
    let mut start: usize = 0;
    let mut i: usize = 0;
    proof {
        assert(cs@.skip(0) == cs@);
        assert(cs@.subrange(0, 0) =~= Seq::<char>::empty());
        assert(texts(r@) + words_of(cs@) =~= words_of(cs@));
    }
    while i < n
        invariant
            n == cs@.len(),
            cs@ == command@,
            start <= i <= n,
            texts(r@) + words_from(cs@.skip(i as int), cs@.subrange(start as int, i as int))
                == words_of(command@),
        decreases n - i,
    {
        let ghost cur = cs@.subrange(start as int, i as int);
        proof {
            assert(cs@.skip(i as int).drop_first() =~= cs@.skip(i + 1));
            assert(cs@.skip(i as int)[0] == cs@[i as int]);
        }
        if is_white_char(cs[i]) {
            proof {
                assert(cs@.subrange(i + 1, i + 1) =~= Seq::<char>::empty());
            }
            if start < i {
                let w = String::from_str(command.substring_char(start, i));
                proof {
                    assert(texts(r@.push(w)) =~= texts(r@).push(w@));
                    assert(texts(r@).push(w@) + words_from(cs@.skip(i + 1), seq![]) =~= texts(r@) + (
                    word(cur) + words_from(cs@.skip(i + 1), seq![])));
                }
                r.push(w);
            } else {
                proof {
                    assert(word(cur) + words_from(cs@.skip(i + 1), seq![]) =~= words_from(
                        cs@.skip(i + 1),
                        seq![],
                    ));
                }
            }
            start = i + 1;
        } else {
            proof {
                assert(cur.push(cs@[i as int]) =~= cs@.subrange(start as int, i + 1));
            }
        }
        i = i + 1;
    }
    proof {
        assert(cs@.skip(n as int) =~= Seq::<char>::empty());
    }
    if start < n {
        let w = String::from_str(command.substring_char(start, n));
        proof {
            assert(texts(r@.push(w)) =~= texts(r@) + seq![w@]);
        }
        r.push(w);
    } else {
        proof {
            assert(texts(r@) + seq![] =~= texts(r@));
        }
    }
    r
}

/// How a command ended.
#[derive(Debug, Clone, Copy, PartialEq, Eq, Structural)]
pub enum CommandOutcome {
    /// The program could not be started.
    SpawnFailed,
    /// The program ran and exited, with status zero or not.
    Exited { success: bool },
}

/// What the run does after a command.
#[derive(Debug, Clone, Copy, PartialEq, Eq, Structural)]
pub enum Step {
    /// Go on with the next command, or with the blocks.
    Continue,
    /// Stop the whole run: nothing more is run or written.
    Abort,
}

/// The step after a command: only a program that ran and failed stops the
/// run; one that could not be started is passed over.
pub open spec fn step_after(outcome: CommandOutcome) -> Step {
    match outcome {
        CommandOutcome::Exited { success } => if success {
            Step::Continue
        } else {
            Step::Abort
        },
        CommandOutcome::SpawnFailed => Step::Continue,
    }
}

/// Decides the step after a command.
pub fn after_command(outcome: CommandOutcome) -> (r: Step)
    ensures
        r == step_after(outcome),
{
    match outcome {
        CommandOutcome::Exited { success } => if success {
            Step::Continue
        } else {
            Step::Abort
        },
        CommandOutcome::SpawnFailed => Step::Continue,
    }
}

/// A target that was already written in this run.
#[derive(Debug, PartialEq, Eq)]
pub struct DuplicateTarget {
    pub target: String,
}

/// The targets written so far in one run, in order.
pub struct Synchronizer {
    handled: Vec<String>,
}

impl View for Synchronizer {
    type V = Seq<Seq<char>>;

    closed spec fn view(&self) -> Seq<Seq<char>> {
        texts(self.handled@)
    }
}

/// Whether a run that has written `handled` may write `target`.
pub open spec fn admits(handled: Seq<Seq<char>>, target: Seq<char>) -> bool {
    !handled.contains(target)
}

impl Synchronizer {
    /// A run that has written nothing yet.
    pub fn new() -> (r: Self)
        ensures
            r@ == Seq::<Seq<char>>::empty(),
    {
        let r = Synchronizer { handled: Vec::new() };
        proof {
            assert(r@ =~= Seq::<Seq<char>>::empty());
        }
        r
    }

    /// Whether `target` was already written in this run.
    pub fn is_handled(&self, target: &str) -> (r: bool)
        ensures
            r == self@.contains(target@),
    {
        let t = String::from_str(target);
        let mut i: usize = 0;
        while i < self.handled.len()
            invariant
                i <= self.handled@.len(),
                t@ == target@,
                forall|j: int| 0 <= j < i ==> self@[j] != target@,
            decreases self.handled.len() - i,
        {
            if self.handled[i] == t {
                proof {
                    assert(self@[i as int] == target@);
                }
                return true;
            }
            i = i + 1;
        }
        false
    }

    /// Records that `target` is about to be written; refuses a target that
    /// was already written in this run, and then records nothing.
    pub fn claim(&mut self, target: &str) -> (r: Result<(), DuplicateTarget>)
        ensures
            r is Ok <==> admits(old(self)@, target@),
            r is Ok ==> final(self)@ == old(self)@.push(target@),
            r is Err ==> final(self)@ == old(self)@ && r->Err_0.target@ == target@,
    {
        if self.is_handled(target) {
            Err(DuplicateTarget { target: String::from_str(target) })
        } else {
            let ghost before = self.handled@;
            self.handled.push(String::from_str(target));
            proof {
                assert(texts(self.handled@) =~= texts(before).push(target@));
            }
            Ok(())
        }
    }

    /// The next step for one configuration: claims its target and gives the
    /// target's new content, computed from its current `content`. A target
    /// already written in this run is refused, with no content to write.
    pub fn sync_config(&mut self, cfg: &AppendConfig, content: &str) -> (r: Result<String, DuplicateTarget>)
        ensures
            r is Ok <==> admits(old(self)@, cfg.target@),
            r is Ok ==> final(self)@ == old(self)@.push(cfg.target@) && r->Ok_0@ == synced(
                content@,
                cfg.comment@,
                cfg.append@,
            ),
            r is Err ==> final(self)@ == old(self)@ && r->Err_0.target@ == cfg.target@,
    {
        match self.claim(cfg.target.as_str()) {
            Ok(()) => Ok(sync_content(content, cfg.comment.as_str(), cfg.append.as_str())),
            Err(e) => Err(e),
        }
    }
}

/// Duplicate targets are refused: once a run has written a target, it
/// refuses that target, however many others it writes in between.
pub proof fn lemma_duplicate_refused(handled: Seq<Seq<char>>, target: Seq<char>, between: Seq<Seq<char>>)
    ensures
        !admits(handled.push(target) + between, target),
{
    let all = handled.push(target) + between;
    assert(all[handled.len() as int] == target);
}

} // verus!
