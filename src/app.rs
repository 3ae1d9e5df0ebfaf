//! The store that keeps the last report that decoded, and the decisions of
//! the program's run loop.
use vstd::prelude::*;
use crate::parser::{decode_line, parse};
use crate::snapshot::{SnapshotView, Tegrastats, zero_view};

verus! {

/// A key as the run loop sees it.
#[derive(Clone, Copy, PartialEq, Eq, Debug)]
pub enum Key {
    Esc,
    Char(char),
    Other,
}

/// A key press: the key, and whether Control was the one modifier held.
#[derive(Clone, Copy, PartialEq, Eq, Debug)]
pub struct KeyPress {
    pub key: Key,
    pub control_only: bool,
}

/// `Esc` or `q`, with any modifiers, or Control with `c` or `C`.
pub open spec fn is_quit_key(k: KeyPress) -> bool {
    k.key == Key::Esc || k.key == Key::Char('q') || (k.control_only && (k.key == Key::Char('c')
        || k.key == Key::Char('C')))
}

/// The report held after `line` is offered to a store that holds `held`.
pub open spec fn after_update(held: SnapshotView, line: Seq<char>) -> SnapshotView {
    match decode_line(line) {
        Ok(d) => SnapshotView { counts: d.counts, temps: d.temps },
        Err(_) => held,
    }
}

/// The report held after `line` is offered `n` times.
pub open spec fn after_updates(held: SnapshotView, line: Seq<char>, n: nat) -> SnapshotView
    decreases n,
{
    if n == 0 {
        held
    } else {
        after_update(after_updates(held, line, (n - 1) as nat), line)
    }
}

/// The latest report that decoded, and whether the program keeps running.
pub struct App {
    running: bool,
    tegrastats: Tegrastats,
}

impl App {
    /// The report held is always whole.
    #[verifier::type_invariant]
    spec fn inv(&self) -> bool {
        self.tegrastats.wf()
    }

    pub closed spec fn running_spec(&self) -> bool {
        self.running
    }

    /// The report held now.
    pub closed spec fn current_spec(&self) -> Tegrastats {
        self.tegrastats
    }

    /// A running store that holds the all-zero report.
    pub fn new() -> (r: App)
        ensures
            r.running_spec(),
            r.current_spec()@ == zero_view(),
            r.current_spec().wf(),
    {
        App { running: true, tegrastats: Tegrastats::default() }
    }

    /// Decodes `line`. A report that decodes replaces the one held, whole; a
    /// line that does not leaves it as it was.
    pub fn update(&mut self, line: &str)
        ensures
            final(self).running_spec() == old(self).running_spec(),
            final(self).current_spec()@ == after_update(old(self).current_spec()@, line@),
            decode_line(line@) is Err ==> final(self).current_spec() == old(self).current_spec(),
    {
        match parse(line) {
            Ok((_, t)) => {
                self.tegrastats = t;
            },
            Err(_) => {},
        }
    }

    /// The report held now.
    pub fn current(&self) -> (r: &Tegrastats)
        ensures
            *r == self.current_spec(),
            r.wf(),
    {
        proof {
            use_type_invariant(self);
        }
        &self.tegrastats
    }

    pub fn is_running(&self) -> (r: bool)
        ensures
            r == self.running_spec(),
    {
        self.running
    }

    /// Stops the program on a quit key; any other key changes nothing.
    pub fn on_key_event(&mut self, key: KeyPress)
        ensures
            final(self).running_spec() == (old(self).running_spec() && !is_quit_key(key)),
            final(self).current_spec() == old(self).current_spec(),
    {
        let quits = match key.key {
            Key::Esc | Key::Char('q') => true,
            Key::Char('c') | Key::Char('C') => key.control_only,
            _ => false,
        };
        if quits {
            self.quit();
        }
    }

    pub fn quit(&mut self)
        ensures
            !final(self).running_spec(),
            final(self).current_spec() == old(self).current_spec(),
    {
        proof {
            use_type_invariant(&*self);
        }
        self.running = false;
    }
}

/// Offering the same line that does not decode any number of times in a row
/// leaves the held report as it was.
pub proof fn lemma_failed_updates_keep_snapshot(held: SnapshotView, line: Seq<char>, n: nat)
    requires
        decode_line(line) is Err,
    ensures
        after_updates(held, line, n) == held,
    decreases n,
{
    if n > 0 {
        lemma_failed_updates_keep_snapshot(held, line, (n - 1) as nat);
    }
}

/// A line that decodes leaves the same report, the one it decodes to, in
/// any two stores, whatever they held before.
pub proof fn lemma_update_depends_on_line_alone(a: SnapshotView, b: SnapshotView, line: Seq<char>)
    ensures
        decode_line(line) matches Ok(d) ==> after_update(a, line) == after_update(b, line)
            && after_update(a, line) == (SnapshotView { counts: d.counts, temps: d.temps }),
{
}

} // verus!
