//! The interactive viewer's state: the data behind the terminal display
//! and the transitions that keystrokes drive.
//!
//! Everything here is plain state logic: the surrounding program owns the
//! terminal, reads key events, maps them to `KeyInput` values and renders
//! the fields of `App` after each transition.

use vstd::prelude::*;
use crate::diff::DiffEntry;
use crate::diff::DiffResult;
use crate::diff::SpecEntry;
use crate::diff::entries_view;

verus! {

/// Display mode for the application.
#[derive(Debug, Clone, Copy, PartialEq, Eq, Structural)]
pub enum ViewMode {
    /// List view showing diff entries.
    List,
    /// Split-screen view showing both files with highlighted differences.
    SplitScreen,
}

/// A keystroke, reduced to what the application reacts to.
#[derive(Debug, Clone, Copy, PartialEq, Eq, Structural)]
pub enum KeyInput {
    /// A printable character.
    Char(char),
    /// The up arrow.
    Up,
    /// The down arrow.
    Down,
    /// The escape key.
    Esc,
}

/// The navigation key of an entry: the smaller of its line numbers, or a
/// sentinel past every real line when it has none.
pub open spec fn spec_nav_key(e: SpecEntry) -> usize {
    match (e.left_line, e.right_line) {
        (Some(l), Some(r)) => if l <= r {
            l
        } else {
            r
        },
        (Some(l), None) => l,
        (None, Some(r)) => r,
        (None, None) => usize::MAX,
    }
}

/// Insertion of an index/key pair behind every pair with a key not
/// larger.
pub open spec fn spec_insert_pair(s: Seq<(usize, usize)>, p: (usize, usize)) -> Seq<
    (usize, usize),
>
    decreases s.len(),
{
    if s.len() == 0 {
        seq![p]
    } else if s.last().1 <= p.1 {
        s.push(p)
    } else {
        spec_insert_pair(s.drop_last(), p).push(s.last())
    }
}

/// The stable sort of index/key pairs by key.
pub open spec fn spec_sort_pairs(s: Seq<(usize, usize)>) -> Seq<(usize, usize)>
    decreases s.len(),
{
    if s.len() == 0 {
        Seq::<(usize, usize)>::empty()
    } else {
        spec_insert_pair(spec_sort_pairs(s.drop_last()), s.last())
    }
}

proof fn lemma_insert_pair_at(s: Seq<(usize, usize)>, p: (usize, usize), at: int)
    requires
        0 <= at <= s.len(),
        forall|i: int| at <= i < s.len() ==> (#[trigger] s[i]).1 > p.1,
        at > 0 ==> s[at - 1].1 <= p.1,
    ensures
        spec_insert_pair(s, p) == s.take(at) + seq![p] + s.skip(at),
    decreases s.len(),
{
    if s.len() == 0 {
        assert(spec_insert_pair(s, p) =~= s.take(at) + seq![p] + s.skip(at));
    } else if s.last().1 <= p.1 {
        assert(at == s.len());
        assert(spec_insert_pair(s, p) =~= s.take(at) + seq![p] + s.skip(at));
    } else {
        assert(at < s.len());
        lemma_insert_pair_at(s.drop_last(), p, at);
        assert(spec_insert_pair(s, p) =~= s.take(at) + seq![p] + s.skip(at));
    }
}

/// Sorts index/key pairs by key, stably.
fn sort_pairs(pairs: &mut Vec<(usize, usize)>)
    ensures
        final(pairs)@ == spec_sort_pairs(old(pairs)@),
{
    let ghost input = pairs@;
    let n = pairs.len();
    let mut out: Vec<(usize, usize)> = Vec::new();
    let mut k: usize = 0;
    while k < n
        invariant
            k <= n,
            n == pairs@.len(),
            *pairs == *old(pairs),
            out@ == spec_sort_pairs(input.take(k as int)),
        decreases n - k,
    {
        let p = pairs[k];
        let mut at = out.len();
        while at > 0
            invariant
                at <= out@.len(),
                forall|i: int| at <= i < out@.len() ==> (#[trigger] out@[i]).1 > p.1,
            decreases at,
        {
            if out[at - 1].1 <= p.1 {
                break;
            }
            at = at - 1;
        }
        proof {
            lemma_insert_pair_at(out@, p, at as int);
        }
        out.insert(at, p);
        proof {
            assert(input.take(k + 1).drop_last() =~= input.take(k as int));
            assert(input.take(k + 1).last() == input[k as int]);
        }
        k = k + 1;
    }
    proof {
        assert(input.take(n as int) =~= input);
    }
    *pairs = out;
}

/// The entry indices in ascending navigation order: pair each index with
/// its entry's key, sort stably, keep the indices.
pub open spec fn spec_sorted_indices(es: Seq<SpecEntry>) -> Seq<usize> {
    spec_sort_pairs(Seq::new(es.len(), |i: int| (i as usize, spec_nav_key(es[i])))).map_values(
        |p: (usize, usize)| p.0,
    )
}

/// App holds the state of the application.
#[derive(Debug)]
pub struct App {
    /// The comparison being displayed.
    pub diff_result: DiffResult,
    /// The selected entry in the list view.
    pub current_index: usize,
    /// Whether the event loop should stop.
    pub quit: bool,
    /// Whether the help overlay is shown.
    pub help_visible: bool,
    /// Whether entries render as keywords rather than glyphs.
    pub use_readable_format: bool,
    /// The active view.
    pub view_mode: ViewMode,
    /// The left file's lines, for the split view.
    pub left_content: Vec<String>,
    /// The right file's lines, for the split view.
    pub right_content: Vec<String>,
    /// The left pane's scroll position.
    pub left_scroll: usize,
    /// The right pane's scroll position.
    pub right_scroll: usize,
    /// The entry the split view is focused on.
    pub current_diff_index: usize,
    /// Entry indices in ascending position order.
    pub sorted_diff_indices: Vec<usize>,
    /// The position within `sorted_diff_indices`.
    pub current_sorted_position: usize,
}

impl App {
    /// The index bounds every navigation step preserves.
    pub open spec fn wf(self) -> bool {
        &&& self.diff_result.entries@.len() > 0 ==> self.current_index
            < self.diff_result.entries@.len()
        &&& self.sorted_diff_indices@.len() > 0 ==> self.current_sorted_position
            < self.sorted_diff_indices@.len()
    }

    /// The scroll positions after jumping to the focused entry.
    pub open spec fn spec_jump(a: App) -> (usize, usize) {
        if a.current_diff_index < a.diff_result.entries@.len() {
            let e = a.diff_result.entries@[a.current_diff_index as int]@;
            let left = match e.left_line {
                Some(l) => if l > 0 {
                    (l - 1) as usize
                } else {
                    0
                },
                None => a.left_scroll,
            };
            let right = match e.right_line {
                Some(r) => if r > 0 {
                    (r - 1) as usize
                } else {
                    0
                },
                None => a.right_scroll,
            };
            (left, right)
        } else {
            (a.left_scroll, a.right_scroll)
        }
    }

    /// The state after a forward step.
    pub open spec fn spec_next(a: App) -> App {
        match a.view_mode {
            ViewMode::List => {
                if a.diff_result.entries@.len() > 0 {
                    App {
                        current_index: ((a.current_index + 1) as int % a.diff_result.entries@.len()
                            as int) as usize,
                        ..a
                    }
                } else {
                    a
                }
            },
            ViewMode::SplitScreen => Self::spec_scroll_down(a),
        }
    }

    /// The state after a backward step.
    pub open spec fn spec_previous(a: App) -> App {
        match a.view_mode {
            ViewMode::List => {
                if a.diff_result.entries@.len() > 0 {
                    App {
                        current_index: if a.current_index > 0 {
                            (a.current_index - 1) as usize
                        } else {
                            (a.diff_result.entries@.len() - 1) as usize
                        },
                        ..a
                    }
                } else {
                    a
                }
            },
            ViewMode::SplitScreen => Self::spec_scroll_up(a),
        }
    }

    pub open spec fn spec_scroll_up(a: App) -> App {
        App {
            left_scroll: if a.left_scroll > 0 {
                (a.left_scroll - 1) as usize
            } else {
                a.left_scroll
            },
            right_scroll: if a.right_scroll > 0 {
                (a.right_scroll - 1) as usize
            } else {
                a.right_scroll
            },
            ..a
        }
    }

    pub open spec fn spec_scroll_down(a: App) -> App {
        let max_left: int = if a.left_content@.len() > 0 {
            a.left_content@.len() - 1
        } else {
            0
        };
        let max_right: int = if a.right_content@.len() > 0 {
            a.right_content@.len() - 1
        } else {
            0
        };
        App {
            left_scroll: if (a.left_scroll as int) < max_left {
                (a.left_scroll + 1) as usize
            } else {
                a.left_scroll
            },
            right_scroll: if (a.right_scroll as int) < max_right {
                (a.right_scroll + 1) as usize
            } else {
                a.right_scroll
            },
            ..a
        }
    }

    /// The state after stepping to the next entry in position order.
    pub open spec fn spec_next_diff(a: App) -> App {
        if a.sorted_diff_indices@.len() > 0 {
            let pos = ((a.current_sorted_position + 1) as int % a.sorted_diff_indices@.len()
                as int) as usize;
            let mid = App {
                current_sorted_position: pos,
                current_diff_index: a.sorted_diff_indices@[pos as int],
                ..a
            };
            let scrolls = Self::spec_jump(mid);
            App { left_scroll: scrolls.0, right_scroll: scrolls.1, ..mid }
        } else {
            a
        }
    }

    /// The state after stepping to the previous entry in position order.
    pub open spec fn spec_previous_diff(a: App) -> App {
        if a.sorted_diff_indices@.len() > 0 {
            let pos = if a.current_sorted_position > 0 {
                (a.current_sorted_position - 1) as usize
            } else {
                (a.sorted_diff_indices@.len() - 1) as usize
            };
            let mid = App {
                current_sorted_position: pos,
                current_diff_index: a.sorted_diff_indices@[pos as int],
                ..a
            };
            let scrolls = Self::spec_jump(mid);
            App { left_scroll: scrolls.0, right_scroll: scrolls.1, ..mid }
        } else {
            a
        }
    }

    /// The state a keystroke leads to.
    pub open spec fn spec_handle_key(a: App, key: KeyInput) -> App {
        match key {
            KeyInput::Char(c) => {
                if c == 'q' {
                    App { quit: true, ..a }
                } else if c == 'j' {
                    Self::spec_next(a)
                } else if c == 'k' {
                    Self::spec_previous(a)
                } else if c == 'n' {
                    Self::spec_next_diff(a)
                } else if c == 'N' {
                    Self::spec_previous_diff(a)
                } else if c == 'v' {
                    App {
                        view_mode: match a.view_mode {
                            ViewMode::List => ViewMode::SplitScreen,
                            ViewMode::SplitScreen => ViewMode::List,
                        },
                        ..a
                    }
                } else if c == 'h' || c == '?' {
                    App { help_visible: !a.help_visible, ..a }
                } else if c == 'r' {
                    App { use_readable_format: !a.use_readable_format, ..a }
                } else {
                    a
                }
            },
            KeyInput::Down => Self::spec_next(a),
            KeyInput::Up => Self::spec_previous(a),
            KeyInput::Esc => {
                if a.help_visible {
                    App { help_visible: false, ..a }
                } else {
                    App { quit: true, ..a }
                }
            },
        }
    }

    /// Creates the viewer state over a comparison and the two files'
    /// lines, focused on the first entry.
    pub fn new(diff_result: DiffResult, left_content: Vec<String>, right_content: Vec<String>) -> (r:
        Self)
        ensures
            r == (App {
                diff_result,
                current_index: 0,
                quit: false,
                help_visible: false,
                use_readable_format: false,
                view_mode: ViewMode::List,
                left_content,
                right_content,
                left_scroll: 0,
                right_scroll: 0,
                current_diff_index: 0,
                sorted_diff_indices: r.sorted_diff_indices,
                current_sorted_position: 0,
            }),
            r.sorted_diff_indices@ == spec_sorted_indices(entries_view(diff_result.entries@)),
            r.wf(),
    {
        let sorted_diff_indices = Self::create_sorted_diff_indices(&diff_result);
        App {
            diff_result,
            current_index: 0,
            quit: false,
            help_visible: false,
            use_readable_format: false,
            view_mode: ViewMode::List,
            left_content,
            right_content,
            left_scroll: 0,
            right_scroll: 0,
            current_diff_index: 0,
            sorted_diff_indices,
            current_sorted_position: 0,
        }
    }

    /// Pairs each entry index with its navigation key, sorts stably by
    /// key, and keeps the indices.
    fn create_sorted_diff_indices(diff_result: &DiffResult) -> (r: Vec<usize>)
        ensures
            r@ == spec_sorted_indices(entries_view(diff_result.entries@)),
    {
        let ghost es = entries_view(diff_result.entries@);
        let n = diff_result.entries.len();
        let mut pairs: Vec<(usize, usize)> = Vec::new();
        let mut i: usize = 0;
        while i < n
            invariant
                i <= n,
                n == diff_result.entries@.len(),
                pairs@ =~= Seq::new(i as nat, |k: int| (k as usize, spec_nav_key(es[k]))),
            decreases n - i,
        {
            let e = &diff_result.entries[i];
            let key: usize = match (e.left_line, e.right_line) {
                (Some(l), Some(r)) => if l <= r {
                    l
                } else {
                    r
                },
                (Some(l), None) => l,
                (None, Some(r)) => r,
                (None, None) => usize::MAX,
            };
            proof {
                assert(es[i as int] == diff_result.entries@[i as int]@);
            }
            pairs.push((i, key));
            proof {
                assert(pairs@ =~= Seq::new((i + 1) as nat, |k: int| (k as usize, spec_nav_key(es[k]))));
            }
            i = i + 1;
        }
        sort_pairs(&mut pairs);
        let m = pairs.len();
        let mut out: Vec<usize> = Vec::new();
        let mut j: usize = 0;
        while j < m
            invariant
                j <= m,
                m == pairs@.len(),
                pairs@ == spec_sort_pairs(Seq::new(es.len(), |k: int| (k as usize, spec_nav_key(es[k])))),
                out@ =~= pairs@.take(j as int).map_values(|p: (usize, usize)| p.0),
            decreases m - j,
        {
            out.push(pairs[j].0);
            proof {
                assert(pairs@.take(j + 1).drop_last() =~= pairs@.take(j as int));
                assert(out@ =~= pairs@.take(j + 1).map_values(|p: (usize, usize)| p.0));
            }
            j = j + 1;
        }
        proof {
            assert(pairs@.take(m as int) =~= pairs@);
            assert(out@ =~= spec_sorted_indices(es));
        }
        out
    }

    /// One step forward: the next list entry, or one line down in the
    /// split view.
    pub fn next(&mut self)
        requires
            old(self).wf(),
        ensures
            *final(self) == Self::spec_next(*old(self)),
            final(self).wf(),
    {
        match self.view_mode {
            ViewMode::List => {
                let len = self.diff_result.entries.len();
                if len > 0 {
                    self.current_index = (self.current_index + 1) % len;
                }
            },
            ViewMode::SplitScreen => {
                self.scroll_down();
            },
        }
    }

    /// One step backward: the previous list entry, or one line up in the
    /// split view.
    pub fn previous(&mut self)
        requires
            old(self).wf(),
        ensures
            *final(self) == Self::spec_previous(*old(self)),
            final(self).wf(),
    {
        match self.view_mode {
            ViewMode::List => {
                let len = self.diff_result.entries.len();
                if len > 0 {
                    if self.current_index > 0 {
                        self.current_index = self.current_index - 1;
                    } else {
                        self.current_index = len - 1;
                    }
                }
            },
            ViewMode::SplitScreen => {
                self.scroll_up();
            },
        }
    }

    /// Shows or hides the help overlay.
    pub fn toggle_help(&mut self)
        ensures
            *final(self) == (App { help_visible: !old(self).help_visible, ..*old(self) }),
    {
        self.help_visible = !self.help_visible;
    }

    /// Switches between glyphs and keywords.
    pub fn toggle_format(&mut self)
        ensures
            *final(self) == (App {
                use_readable_format: !old(self).use_readable_format,
                ..*old(self)
            }),
    {
        self.use_readable_format = !self.use_readable_format;
    }

    /// Switches between the list and the split view.
    pub fn toggle_view_mode(&mut self)
        ensures
            *final(self) == (App {
                view_mode: match old(self).view_mode {
                    ViewMode::List => ViewMode::SplitScreen,
                    ViewMode::SplitScreen => ViewMode::List,
                },
                ..*old(self)
            }),
    {
        self.view_mode = match self.view_mode {
            ViewMode::List => ViewMode::SplitScreen,
            ViewMode::SplitScreen => ViewMode::List,
        };
    }

    /// Scrolls both panes up one line, where possible.
    pub fn scroll_up(&mut self)
        ensures
            *final(self) == Self::spec_scroll_up(*old(self)),
    {
        if self.left_scroll > 0 {
            self.left_scroll = self.left_scroll - 1;
        }
        if self.right_scroll > 0 {
            self.right_scroll = self.right_scroll - 1;
        }
    }

    /// Scrolls both panes down one line, up to each file's last line.
    pub fn scroll_down(&mut self)
        ensures
            *final(self) == Self::spec_scroll_down(*old(self)),
    {
        let max_left = if self.left_content.len() > 0 {
            self.left_content.len() - 1
        } else {
            0
        };
        let max_right = if self.right_content.len() > 0 {
            self.right_content.len() - 1
        } else {
            0
        };
        if self.left_scroll < max_left {
            self.left_scroll = self.left_scroll + 1;
        }
        if self.right_scroll < max_right {
            self.right_scroll = self.right_scroll + 1;
        }
    }

    /// Focuses the next entry in position order and jumps the panes to
    /// its lines.
    pub fn next_diff(&mut self)
        requires
            old(self).wf(),
        ensures
            *final(self) == Self::spec_next_diff(*old(self)),
            final(self).wf(),
    {
        let len = self.sorted_diff_indices.len();
        if len > 0 {
            self.current_sorted_position = (self.current_sorted_position + 1) % len;
            self.current_diff_index = self.sorted_diff_indices[self.current_sorted_position];
            self.jump_to_current_diff();
        }
    }

    /// Focuses the previous entry in position order and jumps the panes
    /// to its lines.
    pub fn previous_diff(&mut self)
        requires
            old(self).wf(),
        ensures
            *final(self) == Self::spec_previous_diff(*old(self)),
            final(self).wf(),
    {
        let len = self.sorted_diff_indices.len();
        if len > 0 {
            if self.current_sorted_position > 0 {
                self.current_sorted_position = self.current_sorted_position - 1;
            } else {
                self.current_sorted_position = len - 1;
            }
            self.current_diff_index = self.sorted_diff_indices[self.current_sorted_position];
            self.jump_to_current_diff();
        }
    }

    /// Scrolls both panes to the focused entry's lines.
    fn jump_to_current_diff(&mut self)
        ensures
            *final(self) == (App {
                left_scroll: Self::spec_jump(*old(self)).0,
                right_scroll: Self::spec_jump(*old(self)).1,
                ..*old(self)
            }),
    {
        if self.current_diff_index < self.diff_result.entries.len() {
            let entry = &self.diff_result.entries[self.current_diff_index];
            match entry.left_line {
                Some(left_line) => {
                    self.left_scroll = if left_line > 0 {
                        left_line - 1
                    } else {
                        0
                    };
                },
                None => {},
            }
            match entry.right_line {
                Some(right_line) => {
                    self.right_scroll = if right_line > 0 {
                        right_line - 1
                    } else {
                        0
                    };
                },
                None => {},
            }
        }
    }

    /// Applies one keystroke.
    pub fn handle_key(&mut self, key: KeyInput)
        requires
            old(self).wf(),
        ensures
            *final(self) == Self::spec_handle_key(*old(self), key),
            final(self).wf(),
    {
        match key {
            KeyInput::Char(c) => {
                if c == 'q' {
                    self.quit = true;
                } else if c == 'j' {
                    self.next();
                } else if c == 'k' {
                    self.previous();
                } else if c == 'n' {
                    self.next_diff();
                } else if c == 'N' {
                    self.previous_diff();
                } else if c == 'v' {
                    self.toggle_view_mode();
                } else if c == 'h' || c == '?' {
                    self.toggle_help();
                } else if c == 'r' {
                    self.toggle_format();
                }
            },
            KeyInput::Down => {
                self.next();
            },
            KeyInput::Up => {
                self.previous();
            },
            KeyInput::Esc => {
                if self.help_visible {
                    self.help_visible = false;
                } else {
                    self.quit = true;
                }
            },
        }
    }
}

/// What a fragment of a source line renders as.
#[derive(Debug, Clone, Copy, PartialEq, Eq, Structural)]
pub enum TokenKind {
    /// A quoted string directly followed by a colon.
    Key,
    /// Any other quoted string.
    Str,
    /// One of the six structural characters.
    Punct,
    /// A numeric run, together with any text accumulated just before it.
    Number,
    /// Anything else.
    Plain,
}

/// Mathematical model of one token.
#[verifier::ext_equal]
pub struct SpecToken {
    pub kind: TokenKind,
    pub text: Seq<char>,
}

/// One colored fragment of a source line.
#[derive(Debug)]
pub struct LineToken {
    pub kind: TokenKind,
    pub text: String,
}

impl View for LineToken {
    type V = SpecToken;

    open spec fn view(&self) -> SpecToken {
        SpecToken { kind: self.kind, text: self.text@ }
    }
}

/// The views of a sequence of tokens.
pub open spec fn tokens_view(ts: Seq<LineToken>) -> Seq<SpecToken> {
    Seq::new(ts.len(), |i: int| ts[i]@)
}

/// The concatenation of the tokens' texts.
pub open spec fn tokens_text(ts: Seq<SpecToken>) -> Seq<char>
    decreases ts.len(),
{
    if ts.len() == 0 {
        Seq::<char>::empty()
    } else {
        ts[0].text + tokens_text(ts.drop_first())
    }
}

proof fn lemma_tokens_text_push(ts: Seq<SpecToken>, t: SpecToken)
    ensures
        tokens_text(ts.push(t)) == tokens_text(ts) + t.text,
    decreases ts.len(),
{
    if ts.len() == 0 {
        assert(ts.push(t).drop_first() =~= Seq::<SpecToken>::empty());
        assert(tokens_text(ts.push(t)) == ts.push(t)[0].text + tokens_text(
            ts.push(t).drop_first(),
        ));
        assert(ts.push(t)[0] == t);
        assert(tokens_text(Seq::<SpecToken>::empty()) == Seq::<char>::empty());
        assert(t.text + Seq::<char>::empty() =~= t.text);
        assert(tokens_text(ts) + t.text =~= t.text);
    } else {
        assert(ts.push(t).drop_first() =~= ts.drop_first().push(t));
        lemma_tokens_text_push(ts.drop_first(), t);
        assert(tokens_text(ts.push(t)) == ts.push(t)[0].text + tokens_text(
            ts.push(t).drop_first(),
        ));
        assert(ts.push(t)[0] == ts[0]);
        assert(tokens_text(ts.push(t).drop_first()) == tokens_text(ts.drop_first()) + t.text);
        assert(tokens_text(ts) == ts[0].text + tokens_text(ts.drop_first()));
        assert(ts[0].text + (tokens_text(ts.drop_first()) + t.text) =~= (ts[0].text + tokens_text(
            ts.drop_first(),
        )) + t.text);
    }
}

/// One of the six structural characters the tokenizer colors separately.
pub open spec fn is_punct_char(c: char) -> bool {
    c == ':' || c == ',' || c == '{' || c == '}' || c == '[' || c == ']'
}

/// The shape every emitted token has.
pub open spec fn token_ok(t: SpecToken) -> bool {
    &&& t.text.len() > 0
    &&& (t.kind == TokenKind::Punct ==> t.text.len() == 1 && is_punct_char(t.text[0]))
    &&& ((t.kind == TokenKind::Key || t.kind == TokenKind::Str) ==> t.text.len() >= 2 && t.text[0]
        == '"' && t.text[t.text.len() - 1] == '"')
    &&& (t.kind == TokenKind::Number ==> forall|i: int|
        0 <= i < t.text.len() ==> crate::strutil::char_is_numeric(#[trigger] t.text[i]) || t.text[i]
            == '.' || (!is_punct_char(t.text[i]) && t.text[i] != '"'))
    &&& (t.kind == TokenKind::Plain ==> t.text[0] == '"' || forall|i: int|
        0 <= i < t.text.len() ==> !is_punct_char(#[trigger] t.text[i]) && t.text[i] != '"'
            && !crate::strutil::char_is_numeric(t.text[i]))
}

/// Appends `src[from..to]` to `dst`.
fn push_range(dst: &mut Vec<char>, src: &Vec<char>, from: usize, to: usize)
    requires
        from <= to <= src@.len(),
    ensures
        final(dst)@ == old(dst)@ + src@.subrange(from as int, to as int),
{
    let ghost base = dst@;
    let mut t = from;
    while t < to
        invariant
            from <= t <= to,
            to <= src@.len(),
            dst@ =~= base + src@.subrange(from as int, t as int),
        decreases to - t,
    {
        dst.push(src[t]);
        t = t + 1;
    }
    proof {
        assert(dst@ =~= base + src@.subrange(from as int, to as int));
    }
}

/// Splits one source line into colored fragments: quoted keys and
/// strings, structural punctuation, numeric runs, and plain text.  The
/// fragments concatenate back to the line, character for character.
#[verifier::rlimit(100)]
pub fn highlight_json_line(line: &str) -> (r: Vec<LineToken>)
    ensures
        tokens_text(tokens_view(r@)) == line@,
        forall|i: int| 0 <= i < r@.len() ==> token_ok((#[trigger] r@[i])@),
{
    let chars = crate::strutil::to_chars(line);
    let n = chars.len();
    let mut tokens: Vec<LineToken> = Vec::new();
    let mut cur: Vec<char> = Vec::new();
    let mut i: usize = 0;
    while i < n
        invariant
            i <= n,
            n == chars@.len(),
            chars@ == line@,
            tokens_text(tokens_view(tokens@)) + cur@ == line@.take(i as int),
            forall|k: int| 0 <= k < tokens@.len() ==> token_ok((#[trigger] tokens@[k])@),
            (forall|k: int|
                0 <= k < cur@.len() ==> !is_punct_char(#[trigger] cur@[k]) && cur@[k] != '"'
                    && !crate::strutil::char_is_numeric(cur@[k])) || (cur@.len() > 0 && cur@[0]
                == '"' && i == n),
        decreases n - i,
    {
        let c = chars[i];
        if c == '"' {
            if cur.len() > 0 {
                let ghost pre = tokens@;
                let t = LineToken {
                    kind: TokenKind::Plain,
                    text: crate::strutil::string_of_chars(&cur),
                };
                tokens.push(t);
                proof {
                    assert(tokens_view(tokens@) =~= tokens_view(pre).push(t@));
                    lemma_tokens_text_push(tokens_view(pre), t@);
                }
                cur = Vec::new();
            }
            // Look for the closing quote.
            let mut j = i + 1;
            while j < n
                invariant
                    i + 1 <= j <= n,
                    forall|t: int| i + 1 <= t < j ==> chars@[t] != '"',
                decreases n - j,
            {
                if chars[j] == '"' {
                    break;
                }
                j = j + 1;
            }
            if j < n {
                // A quoted run; a following colon makes it a key.
                let mut text: Vec<char> = Vec::new();
                push_range(&mut text, &chars, i, j + 1);
                let kind = if j + 1 < n && chars[j + 1] == ':' {
                    TokenKind::Key
                } else {
                    TokenKind::Str
                };
                let ghost pre = tokens@;
                let t = LineToken { kind, text: crate::strutil::string_of_chars(&text) };
                proof {
                    assert(t@.text[0] == line@[i as int]);
                    assert(t@.text[t@.text.len() - 1] == line@[j as int]);
                }
                tokens.push(t);
                proof {
                    assert(tokens_view(tokens@) =~= tokens_view(pre).push(t@));
                    lemma_tokens_text_push(tokens_view(pre), t@);
                    assert(tokens_text(tokens_view(tokens@)) + cur@ =~= line@.take(j + 1));
                }
                i = j + 1;
            } else {
                // No closing quote: the rest of the line stays raw.
                let mut rest: Vec<char> = Vec::new();
                rest.push('"');
                push_range(&mut rest, &chars, i + 1, n);
                proof {
                    assert(rest@ =~= line@.subrange(i as int, n as int));
                }
                cur = rest;
                proof {
                    assert(tokens_text(tokens_view(tokens@)) + cur@ =~= line@.take(n as int));
                }
                i = n;
            }
        } else if c == ':' || c == ',' || c == '{' || c == '}' || c == '[' || c == ']' {
            if cur.len() > 0 {
                let ghost pre = tokens@;
                let t = LineToken {
                    kind: TokenKind::Plain,
                    text: crate::strutil::string_of_chars(&cur),
                };
                tokens.push(t);
                proof {
                    assert(tokens_view(tokens@) =~= tokens_view(pre).push(t@));
                    lemma_tokens_text_push(tokens_view(pre), t@);
                }
                cur = Vec::new();
            }
            let mut one: Vec<char> = Vec::new();
            one.push(c);
            let ghost pre = tokens@;
            let t = LineToken { kind: TokenKind::Punct, text: crate::strutil::string_of_chars(&one) };
            tokens.push(t);
            proof {
                assert(tokens_view(tokens@) =~= tokens_view(pre).push(t@));
                lemma_tokens_text_push(tokens_view(pre), t@);
                assert(tokens_text(tokens_view(tokens@)) + Seq::<char>::empty() =~= line@.take(
                    i + 1,
                ));
            }
            i = i + 1;
        } else if c.is_numeric() {
            // A numeric run is appended to whatever was accumulating.
            let mut j = i + 1;
            while j < n
                invariant
                    i + 1 <= j <= n,
                    forall|t: int|
                        i + 1 <= t < j ==> crate::strutil::char_is_numeric(#[trigger] chars@[t])
                            || chars@[t] == '.',
                decreases n - j,
            {
                let d = chars[j];
                if !(d.is_numeric() || d == '.') {
                    break;
                }
                j = j + 1;
            }
            let mut text = cur;
            push_range(&mut text, &chars, i, j);
            let ghost pre = tokens@;
            let t = LineToken { kind: TokenKind::Number, text: crate::strutil::string_of_chars(&text) };
            tokens.push(t);
            cur = Vec::new();
            proof {
                assert(tokens_view(tokens@) =~= tokens_view(pre).push(t@));
                lemma_tokens_text_push(tokens_view(pre), t@);
                assert(tokens_text(tokens_view(tokens@)) + cur@ =~= line@.take(j as int));
            }
            i = j;
        } else {
            cur.push(c);
            proof {
                assert(tokens_text(tokens_view(tokens@)) + cur@ =~= line@.take(i + 1));
            }
            i = i + 1;
        }
    }
    if cur.len() > 0 {
        let ghost pre = tokens@;
        let t = LineToken { kind: TokenKind::Plain, text: crate::strutil::string_of_chars(&cur) };
        tokens.push(t);
        proof {
            assert(tokens_view(tokens@) =~= tokens_view(pre).push(t@));
            lemma_tokens_text_push(tokens_view(pre), t@);
        }
    }
    proof {
        assert(line@.take(n as int) =~= line@);
        assert(tokens_text(tokens_view(tokens@)) =~= line@);
    }
    tokens
}

/// The first entry whose line on the chosen side equals `line_number`, if
/// any.
pub open spec fn spec_line_entry(es: Seq<SpecEntry>, line_number: usize, is_left: bool) -> Option<
    int,
> {
    if exists|i: int|
        0 <= i < es.len() && spec_line_matches(es[i], line_number, is_left) && (forall|k: int|
            0 <= k < i ==> !spec_line_matches(es[k], line_number, is_left)) {
        Some(
            choose|i: int|
                0 <= i < es.len() && spec_line_matches(es[i], line_number, is_left) && (forall|
                    k: int,
                |
                    0 <= k < i ==> !spec_line_matches(es[k], line_number, is_left)),
        )
    } else {
        None
    }
}

/// Whether an entry sits on the given line of the given side.
pub open spec fn spec_line_matches(e: SpecEntry, line_number: usize, is_left: bool) -> bool {
    if is_left {
        e.left_line == Some(line_number)
    } else {
        e.right_line == Some(line_number)
    }
}

/// Whether any entry sits on this line of this side, and whether the
/// first such entry is the focused one.
pub fn check_diff_status(
    diff_result: &DiffResult,
    line_number: usize,
    is_left: bool,
    current_diff_index: usize,
) -> (r: (bool, bool))
    ensures
        ({
            let es = entries_view(diff_result.entries@);
            match spec_line_entry(es, line_number, is_left) {
                Some(i) => r.0 && (r.1 == (i == current_diff_index as int)),
                None => r == (false, false),
            }
        }),
{
    let ghost es = entries_view(diff_result.entries@);
    let n = diff_result.entries.len();
    let mut index: usize = 0;
    while index < n
        invariant
            index <= n,
            n == diff_result.entries@.len(),
            forall|k: int|
                0 <= k < index ==> !spec_line_matches(#[trigger] es[k], line_number, is_left),
        decreases n - index,
    {
        let entry = &diff_result.entries[index];
        let line_matches: bool = if is_left {
            match entry.left_line {
                Some(l) => l == line_number,
                None => false,
            }
        } else {
            match entry.right_line {
                Some(l) => l == line_number,
                None => false,
            }
        };
        if line_matches {
            proof {
                assert(es[index as int] == diff_result.entries@[index as int]@);
                assert(spec_line_matches(es[index as int], line_number, is_left));
                let w = choose|w: int|
                    0 <= w < es.len() && spec_line_matches(es[w], line_number, is_left) && (forall|
                        k: int,
                    |
                        0 <= k < w ==> !spec_line_matches(es[k], line_number, is_left));
                assert(spec_line_entry(es, line_number, is_left) == Some(w));
                assert(w == index as int);
            }
            return (true, index == current_diff_index);
        }
        proof {
            assert(es[index as int] == diff_result.entries@[index as int]@);
        }
        index = index + 1;
    }
    proof {
        assert(spec_line_entry(es, line_number, is_left) is None);
    }
    (false, false)
}

} // verus!
