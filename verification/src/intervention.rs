//! Construction of the circuit-breaker intervention: a trusted operator note
//! that states the loop as a fact and points attention somewhere new.
use vstd::prelude::*;
use crate::text::{decimal, first_line, push_decimal, split_lines, take_chars, to_chars, trim, trim_chars, string_of};

verus! {

/// Longest error signature, in characters, quoted in a note.
pub const MAX_SIGNATURE_CHARS: usize = 160;

/// The signature as quoted in a note: its first line, trimmed, clipped to
/// `MAX_SIGNATURE_CHARS` characters with an ellipsis when longer.
pub open spec fn spec_trim_signature(sig: Seq<char>) -> Seq<char> {
    let t = trim(first_line(sig));
    if t.len() > MAX_SIGNATURE_CHARS {
        t.take(MAX_SIGNATURE_CHARS as int).push('…')
    } else {
        t
    }
}

/// Keep injected notes short: clip an over-long error signature to its first
/// line and a bounded length.
pub fn trim_signature(sig: &str) -> (r: String)
    ensures
        r@ == spec_trim_signature(sig@),
{
    let cs = to_chars(sig);
    let ls = split_lines(&cs);
    proof {
        assert(ls@.map_values(|l: Vec<char>| l@).len() == ls@.len());
    }
    let t = if ls.len() > 0 {
        assert(ls@.map_values(|l: Vec<char>| l@)[0] == ls@[0]@);
        trim_chars(&ls[0])
    } else {
        trim_chars(&cs)
    };
    if t.len() > MAX_SIGNATURE_CHARS {
        let mut clipped = take_chars(&t, MAX_SIGNATURE_CHARS);
        clipped.push('…');
        string_of(&clipped)
    } else {
        string_of(&t)
    }
}

/// The text of the note injected when the breaker trips.
pub open spec fn intervention_message(
    file: Seq<char>,
    error_signature: Seq<char>,
    occurrences: nat,
    suggested: Option<Seq<char>>,
) -> Seq<char> {
    let head = "System note: the edit just applied to `"@ + file
        + "` is the same change already attempted "@ + decimal(occurrences)
        + " times in this session, and it reproduces the same failure ("@
        + spec_trim_signature(error_signature)
        + "). The root cause is unlikely to live in `"@ + file + "`."@;
    match suggested {
        Some(s) => head + " Before editing `"@ + file + "` again, inspect `"@ + s
            + "` — it has been read but never changed and is a likely owner of this behaviour — and reconsider the approach."@,
        None => head
            + " Before editing it again, step back and reconsider which module actually owns this behaviour rather than re-applying the same fix."@,
    }
}

/// A structured, ready-to-inject intervention emitted when the breaker trips.
#[derive(Clone, Debug)]
pub struct Intervention {
    /// The file the agent has been thrashing.
    pub thrashed_file: String,
    /// The repeating failure signature.
    pub error_signature: String,
    /// How many times the identical `(state, error)` pair has now occurred.
    pub occurrences: u32,
    /// How many distinct file versions the agent oscillated between.
    pub cycle_states: usize,
    /// A file to redirect attention to, if one could be inferred.
    pub suggested_file: Option<String>,
    /// The text to inject as a `role: "system"` message in the next request.
    pub system_message: String,
}

/// An intervention as plain values.
#[verifier::ext_equal]
pub struct InterventionView {
    pub thrashed_file: Seq<char>,
    pub error_signature: Seq<char>,
    pub occurrences: nat,
    pub cycle_states: nat,
    pub suggested_file: Option<Seq<char>>,
    pub system_message: Seq<char>,
}

impl View for Intervention {
    type V = InterventionView;

    open spec fn view(&self) -> InterventionView {
        InterventionView {
            thrashed_file: self.thrashed_file@,
            error_signature: self.error_signature@,
            occurrences: self.occurrences as nat,
            cycle_states: self.cycle_states as nat,
            suggested_file: match self.suggested_file {
                Some(s) => Some(s@),
                None => None,
            },
            system_message: self.system_message@,
        }
    }
}

/// The intervention built from its parts.
pub open spec fn spec_intervention(
    file: Seq<char>,
    error_signature: Seq<char>,
    occurrences: nat,
    cycle_states: nat,
    suggested: Option<Seq<char>>,
) -> InterventionView {
    InterventionView {
        thrashed_file: file,
        error_signature,
        occurrences,
        cycle_states,
        suggested_file: suggested,
        system_message: intervention_message(file, error_signature, occurrences, suggested),
    }
}

impl Intervention {
    /// Build the note for a trip on `thrashed_file` with the given failure.
    pub fn build(
        thrashed_file: &str,
        error_signature: &str,
        occurrences: u32,
        cycle_states: usize,
        suggested_file: Option<String>,
    ) -> (r: Intervention)
        ensures
            r@ == spec_intervention(
                thrashed_file@,
                error_signature@,
                occurrences as nat,
                cycle_states as nat,
                match suggested_file {
                    Some(s) => Some(s@),
                    None => None,
                },
            ),
    {
        let err = trim_signature(error_signature);
        let mut msg = String::new();
        msg.append("System note: the edit just applied to `");
        msg.append(thrashed_file);
        msg.append("` is the same change already attempted ");
        push_decimal(&mut msg, occurrences as u64);
        msg.append(" times in this session, and it reproduces the same failure (");
        msg.append(err.as_str());
        msg.append("). The root cause is unlikely to live in `");
        msg.append(thrashed_file);
        msg.append("`.");
        match &suggested_file {
            Some(s) => {
                msg.append(" Before editing `");
                msg.append(thrashed_file);
                msg.append("` again, inspect `");
                msg.append(s.as_str());
                msg.append(
                    "` — it has been read but never changed and is a likely owner of this behaviour — and reconsider the approach.",
                );
            },
            None => {
                msg.append(
                    " Before editing it again, step back and reconsider which module actually owns this behaviour rather than re-applying the same fix.",
                );
            },
        }
        Intervention {
            thrashed_file: thrashed_file.to_owned(),
            error_signature: error_signature.to_owned(),
            occurrences,
            cycle_states,
            suggested_file,
            system_message: msg,
        }
    }
}

} // verus!
