use vstd::prelude::*;

verus! {

/// Whether JSON text is written on one line or indented.
#[derive(Copy, Clone, Debug, PartialEq, Eq, Structural)]
pub enum JsonIndentation {
    Flat,
    Indented { indent_level: usize },
}

impl Default for JsonIndentation {
    fn default() -> (r: Self)
        ensures
            r == JsonIndentation::Flat,
    {
        JsonIndentation::Flat
    }
}

/// The indentation of the current nesting level: `count` levels of `size` spaces.
#[derive(Copy, Clone, Debug, PartialEq, Eq, Structural)]
pub struct JsonIndentState {
    pub size: usize,
    pub count: usize,
}

impl JsonIndentState {
    /// The top level, indented by `size` spaces per level.
    pub fn root(size: usize) -> (r: Self)
        ensures
            r == (JsonIndentState { size, count: 0 }),
    {
        Self { count: 0, size }
    }
}

/// `n` spaces.
pub open spec fn spaces(n: nat) -> Seq<char> {
    Seq::new(n, |i: int| ' ')
}

/// What is written before an element: nothing on one line, else a line break and the
/// indentation of the level.
pub open spec fn line_start_text(indent: Option<JsonIndentState>) -> Seq<char> {
    match indent {
        Some(i) => "\n"@ + spaces((i.count * i.size) as nat),
        None => Seq::empty(),
    }
}

/// Writes a line break and the indentation of the level, where there is one.
pub fn try_write_new_line_and_indents(w: &mut String, indent: Option<JsonIndentState>)
    requires
        indent is Some ==> indent->0.count * indent->0.size <= usize::MAX,
    ensures
        final(w)@ == old(w)@ + line_start_text(indent),
{
    if let Some(i) = indent {
        w.append("\n");
        let n = i.count * i.size;
        let ghost head = w@;
        let mut k: usize = 0;
        while k < n
            invariant
                k <= n,
                w@ == head + spaces(k as nat),
            decreases n - k,
        {
            w.append(" ");
            k += 1;
            proof {
                reveal_strlit(" ");
            }
            assert(w@ =~= head + spaces(k as nat));
        }
        assert(w@ =~= old(w)@ + line_start_text(indent));
    }
}

} // verus!
