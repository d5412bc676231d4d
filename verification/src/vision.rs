//! The request that asks a local vision model to choose among near-duplicates:
//! the candidates' images as base64 text, and the numbered prompt.

use base64::Engine;
use vstd::prelude::*;
use crate::text::{decimal, push_decimal};

verus! {

/// The character of the standard base64 alphabet for a six-bit value.
pub open spec fn b64_char(v: int) -> char {
    if v < 26 {
        (('A' as int) + v) as char
    } else if v < 52 {
        (('a' as int) + (v - 26)) as char
    } else if v < 62 {
        (('0' as int) + (v - 52)) as char
    } else if v == 62 {
        '+'
    } else {
        '/'
    }
}

/// Standard base64 with `=` padding: each three bytes become four characters,
/// and a final group of one or two bytes is padded to four.
pub open spec fn base64_std(d: Seq<u8>) -> Seq<char>
    decreases d.len(),
{
    if d.len() == 0 {
        Seq::empty()
    } else if d.len() == 1 {
        seq![b64_char((d[0] as int) / 4), b64_char(((d[0] as int) % 4) * 16), '=', '=']
    } else if d.len() == 2 {
        seq![b64_char((d[0] as int) / 4), b64_char(((d[0] as int) % 4) * 16 + (d[1] as int) / 16), b64_char(((d[1] as int) % 16) * 4), '=']
    } else {
        seq![
            b64_char((d[0] as int) / 4),
            b64_char(((d[0] as int) % 4) * 16 + (d[1] as int) / 16),
            b64_char(((d[1] as int) % 16) * 4 + (d[2] as int) / 64),
            b64_char((d[2] as int) % 64),
        ] + base64_std(d.skip(3))
    }
}

/// `base64::engine::general_purpose::STANDARD.encode`: the standard alphabet
/// with padding. It panics only when the output length overflows `usize`,
/// which the bound on the input rules out.
#[verifier::external_body]
fn base64_standard(data: &[u8]) -> (s: String)
    requires
        data@.len() <= usize::MAX / 2,
    ensures
        s@ == base64_std(data@),
{
    base64::engine::general_purpose::STANDARD.encode(data)
}

/// The candidates a vision model compares: each image id with its file name,
/// and each JPEG thumbnail as base64 text, in the order given. With fewer
/// than two candidates there is nothing to compare and no request is made.
pub fn vision_candidates(loaded: &[(usize, String, Vec<u8>)]) -> (r: Option<(Vec<(usize, String)>, Vec<String>)>)
    requires
        forall|k: int| 0 <= k < loaded@.len() ==> (#[trigger] loaded@[k]).2@.len() <= usize::MAX / 2,
    ensures
        r is None <==> loaded@.len() < 2,
        r matches Some(p) ==> {
            &&& p.0@.len() == loaded@.len()
            &&& p.1@.len() == loaded@.len()
            &&& forall|k: int|
                0 <= k < loaded@.len() ==> {
                    &&& (#[trigger] p.0@[k]).0 == loaded@[k].0
                    &&& p.0@[k].1@ == loaded@[k].1@
                    &&& p.1@[k]@ == base64_std(loaded@[k].2@)
                }
        },
{
    if loaded.len() < 2 {
        return None;
    }
    let mut map: Vec<(usize, String)> = Vec::new();
    let mut images: Vec<String> = Vec::new();
    let mut i: usize = 0;
    while i < loaded.len()
        invariant
            i <= loaded@.len(),
            map@.len() == i,
            images@.len() == i,
            forall|k: int| 0 <= k < loaded@.len() ==> (#[trigger] loaded@[k]).2@.len() <= usize::MAX / 2,
            forall|k: int|
                0 <= k < i ==> {
                    &&& (#[trigger] map@[k]).0 == loaded@[k].0
                    &&& map@[k].1@ == loaded@[k].1@
                    &&& images@[k]@ == base64_std(loaded@[k].2@)
                },
        decreases loaded.len() - i,
    {
        let entry = &loaded[i];
        let encoded = base64_standard(entry.2.as_slice());
        map.push((entry.0, entry.1.clone()));
        images.push(encoded);
        i = i + 1;
    }
    Some((map, images))
}

/// The opening of the prompt: the rules the model ranks by.
pub const VISION_PROMPT_HEAD: &'static str = "You are an expert photo curator comparing near-duplicate photos. \
The images are provided in the same order as the numbered list below.\n\n\
HARD RULES (in priority order):\n\
1. REJECT any photo where the main subject's EYES ARE CLOSED, mid-blink, or squinting.\n\
2. REJECT any photo where the main subject is BLURRED or out-of-focus.\n\
3. Among remaining photos, PREFER the one with the best EXPRESSION and captured MOMENT \
(natural smile, engaged gaze, peak action). A slightly softer photo with better expression \
BEATS a technically sharper but lifeless frame.\n\
4. If all photos are equally good, prefer the one with best exposure/color.\n\n\
Numbered candidates (matches image order):\n";

/// The close of the prompt: the answer format the parser expects.
pub const VISION_PROMPT_TAIL: &'static str = "\nRespond with ONLY the number of the best photo (e.g. \"2\") \
followed by a one-sentence reason. Example: \"2 — eyes fully open, natural smile\"";

/// Candidate `i` (counted from zero) as its numbered line, with the
/// metric note in brackets where there is one.
pub open spec fn prompt_line(i: nat, name: Seq<char>, note: Option<Seq<char>>) -> Seq<char> {
    decimal(i + 1) + ". "@ + name + match note {
        Some(n) => " ("@ + n + ")"@,
        None => Seq::<char>::empty(),
    } + "\n"@
}

/// The numbered lines of the first `k` candidates.
pub open spec fn prompt_lines(names: Seq<Seq<char>>, notes: Seq<Option<Seq<char>>>, k: nat) -> Seq<char>
    decreases k,
{
    if k == 0 {
        Seq::empty()
    } else {
        prompt_lines(names, notes, (k - 1) as nat) + prompt_line((k - 1) as nat, names[k - 1], notes[k - 1])
    }
}

/// The names in a candidate list.
pub open spec fn candidate_names(map: Seq<(usize, String)>) -> Seq<Seq<char>> {
    map.map_values(|p: (usize, String)| p.1@)
}

/// The notes, as text.
pub open spec fn note_texts(notes: Seq<Option<String>>) -> Seq<Option<Seq<char>>> {
    notes.map_values(|o: Option<String>| match o {
        Some(s) => Some(s@),
        None => None,
    })
}

/// The whole prompt for the given candidates and notes.
pub open spec fn vision_prompt_text(names: Seq<Seq<char>>, notes: Seq<Option<Seq<char>>>) -> Seq<char> {
    VISION_PROMPT_HEAD@ + prompt_lines(names, notes, names.len()) + VISION_PROMPT_TAIL@
}

/// Build the prompt: the rules, one numbered line per candidate in image
/// order (with its metric note, where the caller has one), and the answer
/// format.
pub fn vision_prompt(candidate_map: &[(usize, String)], notes: &[Option<String>]) -> (p: String)
    requires
        notes@.len() == candidate_map@.len(),
    ensures
        p@ == vision_prompt_text(candidate_names(candidate_map@), note_texts(notes@)),
{
    let ghost names = candidate_names(candidate_map@);
    let ghost texts = note_texts(notes@);
    let mut out = String::new();
    out.append(VISION_PROMPT_HEAD);
    let mut i: usize = 0;
    while i < candidate_map.len()
        invariant
            i <= candidate_map@.len(),
            notes@.len() == candidate_map@.len(),
            names == candidate_names(candidate_map@),
            texts == note_texts(notes@),
            out@ == VISION_PROMPT_HEAD@ + prompt_lines(names, texts, i as nat),
        decreases candidate_map.len() - i,
    {
        let ghost before = out@;
        push_decimal(&mut out, (i + 1) as u64);
        out.append(". ");
        out.append(candidate_map[i].1.as_str());
        match &notes[i] {
            Some(n) => {
                out.append(" (");
                out.append(n.as_str());
                out.append(")");
            },
            None => {},
        }
        out.append("\n");
        proof {
            assert(names[i as int] == candidate_map@[i as int].1@);
            assert(texts[i as int] == match notes@[i as int] {
                Some(s) => Some(s@),
                None => None::<Seq<char>>,
            });
            assert(out@ =~= before + prompt_line(i as nat, names[i as int], texts[i as int]));
            assert(prompt_lines(names, texts, (i + 1) as nat) == prompt_lines(names, texts, i as nat)
                + prompt_line(i as nat, names[i as int], texts[i as int]));
        }
        i = i + 1;
    }
    out.append(VISION_PROMPT_TAIL);
    proof {
        assert(out@ =~= vision_prompt_text(names, texts));
    }
    out
}

} // verus!
