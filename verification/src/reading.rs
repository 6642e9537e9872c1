//! Reading a compiled story: trees of content walked by a cursor, the
//! database of top-level content, and the runtime that reads it.
use vstd::prelude::*;

use crate::story::{ContentType, Modifier, OutputText, Requirement};

verus! {

/// A piece of a compiled story (a text, a named bucket or a choice) and
/// the content under it.
#[derive(Debug)]
pub struct Content {
    pub content: Vec<Content>,
    pub text: String,
    pub content_type: ContentType,
    pub requirements: Vec<Requirement>,
    pub modifiers: Vec<Modifier>,
    /// How far reading has gone: 0 before the content's own text, `k`
    /// once the `k`-th child has been read from.
    pub cursor: usize,
}

/// What reading sees of a content tree. The requirements and modifiers
/// are carried along; reading leaves them as they are.
pub struct ContentView {
    pub content: Seq<ContentView>,
    pub text: Seq<char>,
    pub content_type: ContentType,
    pub requirements: Seq<Requirement>,
    pub modifiers: Seq<Modifier>,
    pub cursor: int,
}

/// A text with the texts of the choices that follow it, as shown to a
/// reader.
pub type Shown = (Seq<char>, Seq<Seq<char>>);

/// The view of a content tree.
pub open spec fn view_of(c: Content) -> ContentView
    decreases c,
{
    ContentView {
        content: Seq::new(
            c.content.len() as nat,
            |i: int|
                if 0 <= i < c.content.len() {
                    view_of(c.content[i])
                } else {
                    ContentView {
                        content: Seq::empty(),
                        text: Seq::empty(),
                        content_type: ContentType::Text,
                        requirements: Seq::empty(),
                        modifiers: Seq::empty(),
                        cursor: 0,
                    }
                },
        ),
        text: c.text@,
        content_type: c.content_type,
        requirements: c.requirements@,
        modifiers: c.modifiers@,
        cursor: c.cursor as int,
    }
}

impl View for Content {
    type V = ContentView;

    open spec fn view(&self) -> ContentView {
        view_of(*self)
    }
}

/// What an output shows.
pub open spec fn shown(o: Option<OutputText>) -> Option<Shown> {
    match o {
        Some(t) => Some((t.text@, t.choices@.map_values(|s: String| s@))),
        None => None,
    }
}

/// Whether the first `k` items of `s` are choices and the item after them,
/// if any, is not.
pub open spec fn choice_run(s: Seq<ContentView>, k: int) -> bool {
    &&& 0 <= k <= s.len()
    &&& forall|j: int| 0 <= j < k ==> (#[trigger] s[j]).content_type == ContentType::Choice
    &&& (k == s.len() || s[k].content_type != ContentType::Choice)
}

/// The texts of the choices that open `s`, up to the first item that is
/// not a choice.
pub open spec fn leading_choices(s: Seq<ContentView>) -> Seq<Seq<char>> {
    let k = choose|k: int| choice_run(s, k);
    s.take(k).map_values(|c: ContentView| c.text)
}

/// Whether reading stays within the machine's limits: no content has as
/// many children as a `usize` can count.
pub open spec fn within_limits(v: ContentView) -> bool
    decreases v,
{
    &&& v.content.len() < usize::MAX
    &&& forall|i: int| 0 <= i < v.content.len() ==> within_limits(#[trigger] v.content[i])
}

/// One step of reading: the tree after it, and what it shows.
///
/// Content that is not a text has no line of its own and starts with its
/// first child. A text shows itself first, with the choices that open its
/// children. Then each child is read from in turn, one step each, and once
/// all have been, reading shows nothing. Requirements always hold (see
/// [`Requirement::meets_requirement`]), so no child is passed over.
pub open spec fn next(v: ContentView) -> (ContentView, Option<Shown>)
    decreases v,
{
    let cur = if v.cursor == 0 && v.content_type != ContentType::Text { 1 } else { v.cursor };
    if cur > v.content.len() {
        (ContentView { cursor: cur, ..v }, None)
    } else if cur <= 0 {
        (ContentView { cursor: 1, ..v }, Some((v.text, leading_choices(v.content))))
    } else {
        let i = cur - 1;
        let (kid, out) = next(v.content[i]);
        (ContentView { content: v.content.update(i, kid), cursor: cur + 1, ..v }, out)
    }
}

/// Whether reading stands at a choice: the child last read from is a
/// choice, or stands at one itself.
pub open spec fn in_choice(v: ContentView) -> bool
    decreases v,
{
    if v.cursor <= 0 || v.cursor > v.content.len() {
        false
    } else if v.content[v.cursor - 1].content_type == ContentType::Choice {
        true
    } else {
        in_choice(v.content[v.cursor - 1])
    }
}

/// Picking the `choice`-th option: the tree after it, and what it shows.
///
/// Away from a choice nothing happens. Otherwise the pick goes to the child
/// last read from; when that shows nothing and the item `choice - 1`
/// places after that child is a choice, reading moves there and takes one
/// step.
pub open spec fn pick(v: ContentView, choice: int) -> (ContentView, Option<Shown>)
    decreases v,
{
    if !in_choice(v) {
        (v, None)
    } else {
        let i = v.cursor - 1;
        let (kid, out) = pick(v.content[i], choice);
        let mid = ContentView { content: v.content.update(i, kid), ..v };
        let j = v.cursor + choice - 1;
        if out is None && j < v.content.len() && mid.content[j].content_type == ContentType::Choice {
            next(ContentView { cursor: v.cursor + choice, ..mid })
        } else {
            (mid, out)
        }
    }
}

/// Whether two trees hold the same texts and kinds in the same places,
/// whatever their cursors.
pub open spec fn same_shape(a: ContentView, b: ContentView) -> bool
    decreases a,
{
    &&& a.text == b.text
    &&& a.content_type == b.content_type
    &&& a.content.len() == b.content.len()
    &&& forall|i: int| 0 <= i < a.content.len() ==> same_shape(#[trigger] a.content[i], b.content[i])
}

proof fn lemma_same_shape_refl(v: ContentView)
    ensures
        same_shape(v, v),
    decreases v,
{
    assert forall|i: int| 0 <= i < v.content.len() implies same_shape(#[trigger] v.content[i], v.content[i]) by {
        lemma_same_shape_refl(v.content[i]);
    }
}

/// Reading a step only moves cursors: every text, kind and child stays
/// where it was.
pub proof fn lemma_next_keeps_shape(v: ContentView)
    ensures
        same_shape(v, next(v).0),
    decreases v,
{
    let cur = if v.cursor == 0 && v.content_type != ContentType::Text { 1 } else { v.cursor };
    if cur > v.content.len() || cur <= 0 {
        lemma_same_shape_refl(v);
    } else {
        let i = cur - 1;
        lemma_next_keeps_shape(v.content[i]);
        let w = next(v).0;
        assert forall|k: int| 0 <= k < v.content.len() implies same_shape(#[trigger] v.content[k], w.content[k]) by {
            if k != i {
                lemma_same_shape_refl(v.content[k]);
            }
        }
    }
}

/// Picking an option only moves cursors: every text, kind and child stays
/// where it was.
pub proof fn lemma_pick_keeps_shape(v: ContentView, choice: int)
    requires
        choice >= 0,
    ensures
        same_shape(v, pick(v, choice).0),
    decreases v,
{
    if !in_choice(v) {
        lemma_same_shape_refl(v);
    } else {
        let i = v.cursor - 1;
        lemma_pick_keeps_shape(v.content[i], choice);
        let (kid, out) = pick(v.content[i], choice);
        let mid = ContentView { content: v.content.update(i, kid), ..v };
        assert forall|k: int| 0 <= k < v.content.len() implies same_shape(#[trigger] v.content[k], mid.content[k]) by {
            if k != i {
                lemma_same_shape_refl(v.content[k]);
            }
        }
        let j = v.cursor + choice - 1;
        if out is None && j < v.content.len() && mid.content[j].content_type == ContentType::Choice {
            let m2 = ContentView { cursor: v.cursor + choice, ..mid };
            lemma_next_keeps_shape(m2);
            lemma_same_shape_trans(v, m2, next(m2).0);
        }
    }
}

proof fn lemma_same_shape_trans(a: ContentView, b: ContentView, c: ContentView)
    requires
        same_shape(a, b),
        same_shape(b, c),
    ensures
        same_shape(a, c),
    decreases a,
{
    assert forall|i: int| 0 <= i < a.content.len() implies same_shape(#[trigger] a.content[i], c.content[i]) by {
        lemma_same_shape_trans(a.content[i], b.content[i], c.content[i]);
    }
}

/// Once a content has been read through, reading it shows nothing and
/// leaves it as it is.
pub proof fn lemma_read_through_stays(v: ContentView)
    requires
        v.cursor > v.content.len(),
    ensures
        next(v) == (v, None::<Shown>),
{
}

/// Something a reader goes through, one output at a time.
pub trait Readable: Sized {
    /// Whether reading can go on from this state.
    spec fn can_read(&self) -> bool;

    /// Whether asking for a choice can be done in this state.
    spec fn can_ask_choice(&self) -> bool;

    /// Whether picking `choice` stays within the content.
    spec fn can_pick(&self, choice: usize) -> bool;

    /// The next output, if any is left.
    fn get_next_output(&mut self) -> (out: Option<OutputText>)
        requires
            old(self).can_read(),
        ensures
            final(self).can_read(),
    ;

    /// Picks the `choice`-th option at the current choice.
    fn pick_choice(&mut self, choice: usize) -> (out: Option<OutputText>)
        requires
            old(self).can_read(),
            old(self).can_pick(choice),
        ensures
            final(self).can_read(),
    ;

    /// Whether reading stands at a choice.
    fn is_in_choice(&self) -> (b: bool)
        requires
            self.can_ask_choice(),
    ;
}

impl Content {
    /// Whether every requirement of this content is met; as requirements
    /// always are, it is always so.
    pub fn meets_requirements(&self) -> (b: bool)
        ensures
            b,
    {
        let mut i: usize = 0;
        while i < self.requirements.len()
            invariant
                i <= self.requirements.len(),
            decreases self.requirements.len() - i,
        {
            if !self.requirements[i].meets_requirement() {
                return false;
            }
            i = i + 1;
        }
        true
    }

    /// The texts of the choices that open this content's children.
    pub fn get_choices(&self) -> (choices: Vec<String>)
        ensures
            choices@.map_values(|s: String| s@) == leading_choices(self@.content),
    {
        let ghost s = self@.content;
        let mut choices: Vec<String> = Vec::new();
        let mut i: usize = 0;
        while i < self.content.len()
            invariant_except_break
                i <= self.content.len(),
                s == self@.content,
                choices.len() == i,
                forall|j: int| 0 <= j < i ==> (#[trigger] s[j]).content_type == ContentType::Choice,
                forall|j: int| 0 <= j < i ==> (#[trigger] choices@[j])@ == s[j].text,
            ensures
                i <= self.content.len(),
                choices.len() == i,
                choice_run(s, i as int),
                forall|j: int| 0 <= j < i ==> (#[trigger] choices@[j])@ == s[j].text,
            decreases self.content.len() - i,
        {
            assert(s[i as int] == self.content[i as int]@);
            if self.content[i].content_type == ContentType::Choice {
                choices.push(self.content[i].text.clone());
                i = i + 1;
            } else {
                break;
            }
        }
        proof {
            let k = choose|k: int| choice_run(s, k);
            assert(choice_run(s, i as int));
            assert(k == i as int) by {
                if k < i {
                    assert(s[k].content_type == ContentType::Choice);
                } else if k > i {
                    assert(s[i as int].content_type == ContentType::Choice);
                }
            }
            assert(choices@.map_values(|s: String| s@) =~= leading_choices(s));
        }
        choices
    }
}

impl Readable for Content {
    open spec fn can_read(&self) -> bool {
        within_limits(self@)
    }

    open spec fn can_ask_choice(&self) -> bool {
        true
    }

    open spec fn can_pick(&self, choice: usize) -> bool {
        true
    }

    fn get_next_output(&mut self) -> (out: Option<OutputText>)
        ensures
            (final(self)@, shown(out)) == next(old(self)@),
        decreases old(self).content, old(self).content.len() + 1 - old(self).cursor,
    {
        let ghost before = *self;
        if self.cursor == 0 && self.content_type != ContentType::Text {
            self.cursor = self.cursor + 1;
        }
        if self.cursor > self.content.len() {
            proof {
                assert(self@.content =~= before@.content);
            }
            return None;
        }
        if self.cursor == 0 {
            let output = Some(OutputText { text: self.text.clone(), choices: self.get_choices() });
            self.cursor = self.cursor + 1;
            proof {
                assert(self@.content =~= before@.content);
            }
            return output;
        }
        let i = self.cursor - 1;
        if !self.content[i].meets_requirements() {
            self.cursor = self.cursor + 1;
            return self.get_next_output();
        }
        let ghost mid = *self;
        proof {
            assert(within_limits(before@.content[i as int]));
            assert(mid@.content =~= before@.content);
        }
        let output = self.content[i].get_next_output();
        self.cursor = self.cursor + 1;
        proof {
            assert(self@.content =~= before@.content.update(i as int, self.content[i as int]@));
        }
        output
    }

    fn pick_choice(&mut self, choice: usize) -> (out: Option<OutputText>)
        ensures
            (final(self)@, shown(out)) == pick(old(self)@, choice as int),
        decreases old(self).content,
    {
        let ghost before = *self;
        if !self.is_in_choice() {
            return None;
        }
        let i = self.cursor - 1;
        proof {
            assert(within_limits(before@.content[i as int]));
        }
        let output = self.content[i].pick_choice(choice);
        let ghost mid = *self;
        proof {
            assert(mid@.content =~= before@.content.update(i as int, mid.content[i as int]@));
            assert(mid@ == ContentView { content: before@.content.update(i as int, mid.content[i as int]@), ..before@ });
        }
        if output.is_none() && choice <= self.content.len() - self.cursor {
            let j = self.cursor + choice - 1;
            proof {
                assert(mid@.content[j as int] == self.content[j as int]@);
            }
            if self.content[j].content_type == ContentType::Choice {
                self.cursor = self.cursor + choice;
                proof {
                    assert(self@.content =~= mid@.content);
                    assert(self@ == ContentView { cursor: before.cursor + choice, ..mid@ });
                }
                return self.get_next_output();
            }
        }
        output
    }

    fn is_in_choice(&self) -> (b: bool)
        ensures
            b == in_choice(self@),
        decreases self.content,
    {
        if self.cursor == 0 || self.cursor > self.content.len() {
            return false;
        }
        proof {
            assert(self@.content[self.cursor - 1] == self.content[self.cursor - 1]@);
        }
        if self.content[self.cursor - 1].content_type == ContentType::Choice {
            return true;
        }
        self.content[self.cursor - 1].is_in_choice()
    }
}

/// A knot of a story: named content with its stitches.
#[derive(Debug)]
pub struct Knot {
    pub identifier: String,
    pub content: Vec<Content>,
    pub stitches: Vec<Stitch>,
}

/// A stitch of a knot: named content.
#[derive(Debug)]
pub struct Stitch {
    pub identifier: String,
    pub content: Vec<Content>,
}

/// A story file: its knots and its top-level content.
#[derive(Debug)]
pub struct File {
    pub knots: Vec<Knot>,
    pub content: Vec<Content>,
}

/// A compiled story as a runtime reads it: its knots, its top-level content,
/// and how far reading has gone through that content.
#[derive(Debug)]
pub struct Database {
    pub knots: Vec<Knot>,
    pub content: Vec<Content>,
    pub cursor: usize,
}

/// What reading sees of a database; the knots are carried along as they are.
pub struct DatabaseView {
    pub knots: Seq<Knot>,
    pub content: Seq<ContentView>,
    pub cursor: int,
}

impl View for Database {
    type V = DatabaseView;

    open spec fn view(&self) -> DatabaseView {
        DatabaseView { knots: self.knots@, content: self.content@.map_values(|c: Content| c@), cursor: self.cursor as int }
    }
}

/// One step of reading a database: the top-level item at the cursor takes
/// a step; when it shows nothing, reading moves on to the next item, until
/// one shows something or none is left.
pub open spec fn db_next(d: DatabaseView) -> (DatabaseView, Option<Shown>)
    decreases d.content.len() - d.cursor,
{
    if d.cursor < 0 || d.cursor >= d.content.len() {
        (d, None)
    } else {
        let (kid, out) = next(d.content[d.cursor]);
        let d1 = DatabaseView { content: d.content.update(d.cursor, kid), cursor: d.cursor, ..d };
        if out is None {
            db_next(DatabaseView { cursor: d.cursor + 1, ..d1 })
        } else {
            (d1, out)
        }
    }
}

/// Whether reading a database stands at a choice: the item at the cursor is
/// a choice or stands at one.
pub open spec fn db_in_choice(d: DatabaseView) -> bool {
    d.content[d.cursor].content_type == ContentType::Choice || in_choice(d.content[d.cursor])
}

/// Picking the `choice`-th option in a database: the pick goes to the item
/// at the cursor; when that shows nothing and the item `choice` places
/// further on is a choice, reading moves there and takes a step.
pub open spec fn db_pick(d: DatabaseView, choice: int) -> (DatabaseView, Option<Shown>) {
    if !db_in_choice(d) {
        (d, None)
    } else {
        let (kid, out) = pick(d.content[d.cursor], choice);
        let d1 = DatabaseView { content: d.content.update(d.cursor, kid), cursor: d.cursor, ..d };
        let j = d.cursor + choice;
        if out is None && j <= d.content.len() && d1.content[j].content_type == ContentType::Choice {
            db_next(DatabaseView { cursor: j, ..d1 })
        } else {
            (d1, out)
        }
    }
}

/// When reading a database shows nothing, all of its content has been
/// read, and reading on shows nothing and changes nothing.
pub proof fn lemma_db_exhausted_stays(d: DatabaseView)
    requires
        d.cursor >= 0,
        db_next(d).1 is None,
    ensures
        db_next(d).0.cursor >= d.content.len(),
        db_next(d).0.content.len() == d.content.len(),
        db_next(db_next(d).0) == db_next(d),
    decreases d.content.len() - d.cursor,
{
    if d.cursor >= d.content.len() {
    } else {
        let (kid, out) = next(d.content[d.cursor]);
        let d1 = DatabaseView { content: d.content.update(d.cursor, kid), cursor: d.cursor, ..d };
        lemma_db_exhausted_stays(DatabaseView { cursor: d.cursor + 1, ..d1 });
    }
}

impl Readable for Database {
    open spec fn can_read(&self) -> bool {
        forall|i: int| 0 <= i < self.content.len() ==> within_limits(#[trigger] self.content[i]@)
    }

    open spec fn can_ask_choice(&self) -> bool {
        self.cursor < self.content.len()
    }

    /// The pick must not look at the item just past the last one.
    open spec fn can_pick(&self, choice: usize) -> bool {
        &&& self.cursor < self.content.len()
        &&& !(pick(self.content[self.cursor as int]@, choice as int).1 is None && self.cursor + choice == self.content.len())
    }

    fn get_next_output(&mut self) -> (out: Option<OutputText>)
        ensures
            (final(self)@, shown(out)) == db_next(old(self)@),
            final(self).knots == old(self).knots,
        decreases old(self).content.len() - old(self).cursor,
    {
        let ghost before = *self;
        if self.cursor >= self.content.len() {
            return None;
        }
        let i = self.cursor;
        if !self.content[i].meets_requirements() {
            self.cursor = self.cursor + 1;
            return self.get_next_output();
        }
        proof {
            assert(within_limits(before.content[i as int]@));
        }
        let output = self.content[i].get_next_output();
        let ghost mid = *self;
        proof {
            assert(mid@.content =~= before@.content.update(i as int, mid.content[i as int]@));
            assert forall|k: int| 0 <= k < mid.content.len() implies within_limits(#[trigger] mid.content[k]@) by {
                if k != i {
                    assert(mid.content[k] == before.content[k]);
                }
            }
        }
        if output.is_none() {
            self.cursor = self.cursor + 1;
            proof {
                assert(self@ == DatabaseView { cursor: before.cursor + 1, ..mid@ });
            }
            self.get_next_output()
        } else {
            output
        }
    }

    fn pick_choice(&mut self, choice: usize) -> (out: Option<OutputText>)
        ensures
            (final(self)@, shown(out)) == db_pick(old(self)@, choice as int),
            final(self).knots == old(self).knots,
    {
        let ghost before = *self;
        if !self.is_in_choice() {
            return None;
        }
        let i = self.cursor;
        proof {
            assert(within_limits(before.content[i as int]@));
        }
        let output = self.content[i].pick_choice(choice);
        let ghost mid = *self;
        proof {
            assert(mid@.content =~= before@.content.update(i as int, mid.content[i as int]@));
            assert forall|k: int| 0 <= k < mid.content.len() implies within_limits(#[trigger] mid.content[k]@) by {
                if k != i {
                    assert(mid.content[k] == before.content[k]);
                }
            }
        }
        if output.is_none() && choice <= self.content.len() - self.cursor {
            let j = self.cursor + choice;
            proof {
                assert(mid@.content[j as int] == self.content[j as int]@);
            }
            if self.content[j].content_type == ContentType::Choice {
                self.cursor = j;
                proof {
                    assert(self@ == DatabaseView { cursor: j as int, ..mid@ });
                }
                return self.get_next_output();
            }
        }
        output
    }

    fn is_in_choice(&self) -> (b: bool)
        ensures
            b == db_in_choice(self@),
    {
        if self.content[self.cursor].content_type == ContentType::Choice {
            return true;
        }
        self.content[self.cursor].is_in_choice()
    }
}

/// Reads a compiled story for a player.
#[derive(Debug)]
pub struct Runtime {
    pub database: Database,
}

impl Runtime {
    /// A runtime at the start of `database`.
    pub fn new(database: Database) -> (r: Runtime)
        ensures
            r.database == database,
    {
        Runtime { database }
    }

    /// The next text of the story, if any is left.
    pub fn next_text(&mut self) -> (out: Option<OutputText>)
        requires
            old(self).database.can_read(),
        ensures
            (final(self).database@, shown(out)) == db_next(old(self).database@),
            final(self).database.knots == old(self).database.knots,
            final(self).database.can_read(),
    {
        self.database.get_next_output()
    }

    /// Picks the `choice`-th option at the current choice.
    pub fn pick_choice(&mut self, choice: usize) -> (out: Option<OutputText>)
        requires
            old(self).database.can_read(),
            old(self).database.can_pick(choice),
        ensures
            (final(self).database@, shown(out)) == db_pick(old(self).database@, choice as int),
            final(self).database.knots == old(self).database.knots,
            final(self).database.can_read(),
    {
        self.database.pick_choice(choice)
    }
}

} // verus!
