//! Lifepath records, the settings that group them, the lookup that owns them,
//! and the canonical text of a record.
use vstd::prelude::*;
use vstd::string::StringExecFns;

pub use crate::lp_parser;

use crate::text::{decimal, format_list, join, push_char, push_decimal, str_eq, views};

verus! {

/// A named, ordered group of lifepaths, held by name.
pub struct Setting {
    name: String,
    lifepaths: Vec<String>,
}

/// What a `Setting` holds: its name and its lifepaths' names in order.
pub struct SettingView {
    pub name: Seq<char>,
    pub lifepaths: Seq<Seq<char>>,
}

impl View for Setting {
    type V = SettingView;

    closed spec fn view(&self) -> SettingView {
        SettingView { name: self.name@, lifepaths: views(self.lifepaths@) }
    }
}

impl Default for Setting {
    /// A setting with an empty name and no lifepaths.
    fn default() -> (r: Self)
        ensures
            r@ == (SettingView { name: Seq::empty(), lifepaths: Seq::empty() }),
    {
        Setting::new(String::new())
    }
}

impl Setting {
    /// A setting with the given name and no lifepaths.
    pub fn new(name: String) -> (r: Self)
        ensures
            r@ == (SettingView { name: name@, lifepaths: Seq::empty() }),
    {
        let r = Self { name, lifepaths: Vec::new() };
        assert(r@.lifepaths =~= Seq::empty());
        r
    }

    /// The setting's name.
    pub fn name(&self) -> (r: &String)
        ensures
            r@ == self@.name,
    {
        &self.name
    }

    /// The names of the setting's lifepaths, in order.
    pub fn lifepaths(&self) -> (r: &Vec<String>)
        ensures
            views(r@) == self@.lifepaths,
    {
        &self.lifepaths
    }

    /// Appends a lifepath name.
    pub fn push_lifepath(&mut self, name: String)
        ensures
            final(self)@ == (SettingView {
                name: old(self)@.name,
                lifepaths: old(self)@.lifepaths.push(name@),
            }),
    {
        self.lifepaths.push(name);
        assert(views(self.lifepaths@) =~= views(old(self).lifepaths@).push(name@));
    }
}

/// Which attributes a stat boost applies to; `Neutral` is no boost.
#[derive(Debug, Clone, Copy, PartialEq, Eq, Structural)]
pub enum StatBoostType {
    Mental,
    Physical,
    Both,
    Either,
    Neutral,
}

/// A signed magnitude and the attributes it applies to.
#[derive(Debug, Clone, Copy, PartialEq, Eq, Structural)]
pub struct StatBoost(pub i8, pub StatBoostType);

/// A free-text requirement for taking a lifepath.
#[derive(Debug)]
pub enum Requirement {
    Custom(String),
}

/// A free-text restriction on taking a lifepath.
#[derive(Debug)]
pub enum Restriction {
    Custom(String),
}

/// A free-text note on a lifepath.
#[derive(Debug)]
pub enum Note {
    Custom(String),
}

/// An annotation with a text.
pub trait Annotation: View<V = Seq<char>> {
    /// The annotation's text.
    fn text(&self) -> (r: &String)
        ensures
            r@ == self@,
    ;
}

impl View for Requirement {
    type V = Seq<char>;

    open spec fn view(&self) -> Seq<char> {
        match self {
            Requirement::Custom(s) => s@,
        }
    }
}

impl Annotation for Requirement {
    fn text(&self) -> (r: &String) {
        match self {
            Requirement::Custom(s) => s,
        }
    }
}

impl View for Restriction {
    type V = Seq<char>;

    open spec fn view(&self) -> Seq<char> {
        match self {
            Restriction::Custom(s) => s@,
        }
    }
}

impl Annotation for Restriction {
    fn text(&self) -> (r: &String) {
        match self {
            Restriction::Custom(s) => s,
        }
    }
}

impl View for Note {
    type V = Seq<char>;

    open spec fn view(&self) -> Seq<char> {
        match self {
            Note::Custom(s) => s@,
        }
    }
}

impl Annotation for Note {
    fn text(&self) -> (r: &String) {
        match self {
            Note::Custom(s) => s,
        }
    }
}

/// The lifepaths that may follow one: any of its setting, none, or those listed.
#[derive(Debug)]
pub enum Leads {
    Any,
    Nothing,
    Listed(Vec<String>),
}

/// What `Leads` holds.
pub enum LeadsView {
    Any,
    Nothing,
    Listed(Seq<Seq<char>>),
}

impl View for Leads {
    type V = LeadsView;

    open spec fn view(&self) -> LeadsView {
        match self {
            Leads::Any => LeadsView::Any,
            Leads::Nothing => LeadsView::Nothing,
            Leads::Listed(v) => LeadsView::Listed(views(v@)),
        }
    }
}

/// The texts of an optional list of annotations.
pub open spec fn opt_texts<T: View<V = Seq<char>>>(o: Option<Vec<T>>) -> Option<Seq<Seq<char>>> {
    match o {
        Some(v) => Some(v@.map_values(|x: T| x@)),
        None => None,
    }
}

/// One stage of a character's life history.
pub struct Lifepath {
    name: String,
    time: i64,
    resources: i64,
    stat_boost: StatBoost,
    leads: Leads,
    skill_points: i64,
    general_points: i64,
    trait_points: i64,
    skill_list: Vec<String>,
    trait_list: Vec<String>,
    requirements: Option<Vec<Requirement>>,
    restrictions: Option<Vec<Restriction>>,
    note: Option<Vec<Note>>,
}

/// What a `Lifepath` holds, with texts for strings.
pub struct LifepathView {
    pub name: Seq<char>,
    pub time: i64,
    pub resources: i64,
    pub stat_boost: StatBoost,
    pub leads: LeadsView,
    pub skill_points: i64,
    pub general_points: i64,
    pub trait_points: i64,
    pub skill_list: Seq<Seq<char>>,
    pub trait_list: Seq<Seq<char>>,
    pub requirements: Option<Seq<Seq<char>>>,
    pub restrictions: Option<Seq<Seq<char>>>,
    pub note: Option<Seq<Seq<char>>>,
}

impl View for Lifepath {
    type V = LifepathView;

    closed spec fn view(&self) -> LifepathView {
        LifepathView {
            name: self.name@,
            time: self.time,
            resources: self.resources,
            stat_boost: self.stat_boost,
            leads: self.leads@,
            skill_points: self.skill_points,
            general_points: self.general_points,
            trait_points: self.trait_points,
            skill_list: views(self.skill_list@),
            trait_list: views(self.trait_list@),
            requirements: opt_texts(self.requirements),
            restrictions: opt_texts(self.restrictions),
            note: opt_texts(self.note),
        }
    }
}

impl Lifepath {
    /// A lifepath with the given fields.
    pub fn new(
        name: String,
        time: i64,
        resources: i64,
        stat_boost: StatBoost,
        leads: Leads,
        skill_points: i64,
        general_points: i64,
        trait_points: i64,
        skill_list: Vec<String>,
        trait_list: Vec<String>,
        requirements: Option<Vec<Requirement>>,
        restrictions: Option<Vec<Restriction>>,
        note: Option<Vec<Note>>,
    ) -> (r: Self)
        ensures
            r@ == (LifepathView {
                name: name@,
                time,
                resources,
                stat_boost,
                leads: leads@,
                skill_points,
                general_points,
                trait_points,
                skill_list: views(skill_list@),
                trait_list: views(trait_list@),
                requirements: opt_texts(requirements),
                restrictions: opt_texts(restrictions),
                note: opt_texts(note),
            }),
    {
        Self {
            name,
            time,
            resources,
            stat_boost,
            leads,
            skill_points,
            general_points,
            trait_points,
            skill_list,
            trait_list,
            requirements,
            restrictions,
            note,
        }
    }
}

/// The text of a stat boost: `-` for none, else a sign, the magnitude and
/// the attributes' marker.
pub open spec fn boost_text(b: StatBoost) -> Seq<char> {
    let marker = match b.1 {
        StatBoostType::Both => "M,P"@,
        StatBoostType::Either => "M/P"@,
        StatBoostType::Physical => "P"@,
        StatBoostType::Mental => "M"@,
        StatBoostType::Neutral => "-"@,
    };
    if b.1 == StatBoostType::Neutral {
        "-"@
    } else if b.0 < 0 {
        seq!['-'] + decimal(-b.0) + marker
    } else {
        seq!['+'] + decimal(b.0 as int) + marker
    }
}

/// The text of a lifepath's leads.
pub open spec fn leads_text(l: LeadsView) -> Seq<char> {
    match l {
        LeadsView::Any => "Any"@,
        LeadsView::Nothing => Seq::empty(),
        LeadsView::Listed(v) => join(v),
    }
}

/// The unit after a number of points: singular for exactly one.
pub open spec fn pt_pts_text(i: int) -> Seq<char> {
    if i == 1 {
        "pt"@
    } else {
        "pts"@
    }
}

/// A number of points with its unit.
pub open spec fn points_text(i: int) -> Seq<char> {
    decimal(i) + pt_pts_text(i)
}

/// A labelled line of annotations, or nothing where there are none.
pub open spec fn annotation_line(label: Seq<char>, o: Option<Seq<Seq<char>>>) -> Seq<char> {
    match o {
        Some(v) => label + join(v) + "\n"@,
        None => Seq::empty(),
    }
}

/// The first line: name, time, resources, stat boost and leads.
pub open spec fn head_line(v: LifepathView) -> Seq<char> {
    v.name + "   "@ + decimal(v.time as int) + " yrs  "@ + decimal(v.resources as int) + " res  "@
        + boost_text(v.stat_boost) + "  "@ + leads_text(v.leads) + "\n"@
}

/// The skills line; general points appear only where there are some.
pub open spec fn skills_line(v: LifepathView) -> Seq<char> {
    let general = if v.general_points > 0 {
        points_text(v.general_points as int) + ": General; "@
    } else {
        Seq::empty()
    };
    "Skills: "@ + general + points_text(v.skill_points as int) + ": "@ + join(v.skill_list) + "\n"@
}

/// The traits line; `-` where there are no trait points.
pub open spec fn traits_line(v: LifepathView) -> Seq<char> {
    let traits = if v.trait_points > 0 {
        points_text(v.trait_points as int) + ": "@ + join(v.trait_list)
    } else {
        "-"@
    };
    "Traits: "@ + traits + "\n"@
}

/// The canonical text of a lifepath.
pub open spec fn render_text(v: LifepathView) -> Seq<char> {
    head_line(v) + skills_line(v) + traits_line(v) + annotation_line("Requirements: "@, v.requirements)
        + annotation_line("Restrictions: "@, v.restrictions) + annotation_line("Notes: "@, v.note)
}

impl StatBoost {
    /// The boost's text.
    pub fn render(&self) -> (r: String)
        ensures
            r@ == boost_text(*self),
    {
        let marker = match self.1 {
            StatBoostType::Both => "M,P",
            StatBoostType::Either => "M/P",
            StatBoostType::Physical => "P",
            StatBoostType::Mental => "M",
            StatBoostType::Neutral => {
                return String::from_str("-");
            },
        };
        let mut r = String::new();
        if self.0 < 0 {
            push_char(&mut r, '-');
            push_decimal(&mut r, -(self.0 as i64));
        } else {
            push_char(&mut r, '+');
            push_decimal(&mut r, self.0 as i64);
        }
        r.append(marker);
        assert(r@ =~= boost_text(*self));
        r
    }
}

impl Leads {
    /// The leads' text: `Any`, nothing, or the names joined with `", "`.
    pub fn render(&self) -> (r: String)
        ensures
            r@ == leads_text(self@),
    {
        match self {
            Leads::Any => String::from_str("Any"),
            Leads::Nothing => String::new(),
            Leads::Listed(v) => format_list(v),
        }
    }
}

/// The unit after a number of points: `pt` for exactly one, else `pts`.
pub fn pt_pts(i: i64) -> (r: String)
    ensures
        r@ == pt_pts_text(i as int),
{
    if i == 1 {
        String::from_str("pt")
    } else {
        String::from_str("pts")
    }
}

fn push_points(s: &mut String, i: i64)
    ensures
        final(s)@ == old(s)@ + points_text(i as int),
{
    push_decimal(s, i);
    let unit = pt_pts(i);
    s.append(unit.as_str());
    assert(final(s)@ =~= old(s)@ + points_text(i as int));
}

fn push_annotations<T: Annotation>(s: &mut String, label: &str, o: &Option<Vec<T>>)
    ensures
        final(s)@ == old(s)@ + annotation_line(label@, opt_texts(*o)),
{
    match o {
        Some(v) => {
            s.append(label);
            let ghost start = s@;
            let mut i: usize = 0;
            while i < v.len()
                invariant
                    i <= v@.len(),
                    s@ == start + join(v@.map_values(|x: T| x@).take(i as int)),
                decreases v@.len() - i,
            {
                let ghost items = v@.map_values(|x: T| x@);
                assert(items.take(i + 1).drop_last() =~= items.take(i as int));
                if i > 0 {
                    push_char(s, ',');
                    push_char(s, ' ');
                }
                s.append(v[i].text().as_str());
                i = i + 1;
                assert(s@ =~= start + join(items.take(i as int)));
            }
            assert(v@.map_values(|x: T| x@).take(i as int) =~= v@.map_values(|x: T| x@));
            s.append("\n");
            assert(final(s)@ =~= old(s)@ + annotation_line(label@, opt_texts(*o)));
        },
        None => {
            assert(final(s)@ =~= old(s)@ + annotation_line(label@, opt_texts(*o)));
        },
    }
}

impl Lifepath {
    fn push_head_line(&self, r: &mut String)
        ensures
            final(r)@ == old(r)@ + head_line(self@),
    {
        r.append(self.name.as_str());
        r.append("   ");
        push_decimal(r, self.time);
        r.append(" yrs  ");
        push_decimal(r, self.resources);
        r.append(" res  ");
        let boost = self.stat_boost.render();
        r.append(boost.as_str());
        r.append("  ");
        let leads = self.leads.render();
        r.append(leads.as_str());
        r.append("\n");
        assert(final(r)@ =~= old(r)@ + head_line(self@));
    }

    fn push_skills_line(&self, r: &mut String)
        ensures
            final(r)@ == old(r)@ + skills_line(self@),
    {
        r.append("Skills: ");
        if self.general_points > 0 {
            push_points(r, self.general_points);
            r.append(": General; ");
        }
        push_points(r, self.skill_points);
        r.append(": ");
        let skills = format_list(&self.skill_list);
        r.append(skills.as_str());
        r.append("\n");
        assert(final(r)@ =~= old(r)@ + skills_line(self@));
    }

    fn push_traits_line(&self, r: &mut String)
        ensures
            final(r)@ == old(r)@ + traits_line(self@),
    {
        r.append("Traits: ");
        if self.trait_points > 0 {
            push_points(r, self.trait_points);
            r.append(": ");
            let traits = format_list(&self.trait_list);
            r.append(traits.as_str());
        } else {
            r.append("-");
        }
        r.append("\n");
        assert(final(r)@ =~= old(r)@ + traits_line(self@));
    }

    /// The lifepath's canonical multi-line text.
    pub fn render(&self) -> (r: String)
        ensures
            r@ == render_text(self@),
    {
        let mut r = String::new();
        self.push_head_line(&mut r);
        self.push_skills_line(&mut r);
        self.push_traits_line(&mut r);
        push_annotations(&mut r, "Requirements: ", &self.requirements);
        push_annotations(&mut r, "Restrictions: ", &self.restrictions);
        push_annotations(&mut r, "Notes: ", &self.note);
        assert(r@ =~= render_text(self@));
        r
    }
}

/// The key of a lookup entry: the lifepath's name and its setting's name.
pub open spec fn entry_key(e: (String, Lifepath)) -> (Seq<char>, Seq<char>) {
    (e.1@.name, e.0@)
}

/// The map that a sequence of entries describes; a later entry wins.
pub open spec fn entries_map(s: Seq<(String, Lifepath)>) -> Map<
    (Seq<char>, Seq<char>),
    LifepathView,
>
    decreases s.len(),
{
    if s.len() == 0 {
        Map::empty()
    } else {
        entries_map(s.drop_last()).insert(entry_key(s.last()), s.last().1@)
    }
}

/// No two entries have the same key.
pub open spec fn keys_distinct(s: Seq<(String, Lifepath)>) -> bool {
    forall|i: int, j: int| 0 <= i < j < s.len() ==> entry_key(s[i]) != entry_key(s[j])
}

proof fn lemma_entries_map_at(s: Seq<(String, Lifepath)>, i: int)
    requires
        keys_distinct(s),
        0 <= i < s.len(),
    ensures
        entries_map(s).contains_key(entry_key(s[i])),
        entries_map(s)[entry_key(s[i])] == s[i].1@,
    decreases s.len(),
{
    if i < s.len() - 1 {
        lemma_entries_map_at(s.drop_last(), i);
    }
}

proof fn lemma_entries_map_absent(s: Seq<(String, Lifepath)>, k: (Seq<char>, Seq<char>))
    requires
        forall|i: int| 0 <= i < s.len() ==> entry_key(s[i]) != k,
    ensures
        !entries_map(s).contains_key(k),
    decreases s.len(),
{
    if s.len() > 0 {
        lemma_entries_map_absent(s.drop_last(), k);
    }
}

proof fn lemma_entries_map_update(s: Seq<(String, Lifepath)>, i: int, e: (String, Lifepath))
    requires
        keys_distinct(s),
        0 <= i < s.len(),
        entry_key(s[i]) == entry_key(e),
    ensures
        entries_map(s.update(i, e)) == entries_map(s).insert(entry_key(e), e.1@),
    decreases s.len(),
{
    let t = s.update(i, e);
    if i == s.len() - 1 {
        assert(t.drop_last() =~= s.drop_last());
        assert(entries_map(t) =~= entries_map(s).insert(entry_key(e), e.1@));
    } else {
        lemma_entries_map_update(s.drop_last(), i, e);
        assert(t.drop_last() =~= s.drop_last().update(i, e));
        assert(entry_key(s.last()) != entry_key(e));
        assert(entries_map(t) =~= entries_map(s).insert(entry_key(e), e.1@));
    }
}

/// Every lifepath read so far, by name and then by setting name.
pub struct LifepathLookup {
    lifepaths: Vec<(String, Lifepath)>,
}

impl View for LifepathLookup {
    type V = Map<(Seq<char>, Seq<char>), LifepathView>;

    closed spec fn view(&self) -> Map<(Seq<char>, Seq<char>), LifepathView> {
        entries_map(self.lifepaths@)
    }
}

impl Default for LifepathLookup {
    /// An empty lookup.
    fn default() -> (r: Self)
        ensures
            r.wf(),
            r@ == Map::<(Seq<char>, Seq<char>), LifepathView>::empty(),
    {
        LifepathLookup::new()
    }
}

impl LifepathLookup {
    /// Whether each (lifepath name, setting name) pair is held once.
    pub closed spec fn wf(&self) -> bool {
        keys_distinct(self.lifepaths@)
    }

    /// An empty lookup.
    pub fn new() -> (r: Self)
        ensures
            r.wf(),
            r@ == Map::<(Seq<char>, Seq<char>), LifepathView>::empty(),
    {
        Self { lifepaths: Vec::new() }
    }

    /// Stores `lifepath` under its name and `setting`, replacing any lifepath
    /// held there before.
    pub fn add_lifepaths(&mut self, lifepath: Lifepath, setting: &str)
        requires
            old(self).wf(),
        ensures
            final(self).wf(),
            final(self)@ == old(self)@.insert((lifepath@.name, setting@), lifepath@),
    {
        let mut i: usize = 0;
        while i < self.lifepaths.len()
            invariant
                self.lifepaths@ == old(self).lifepaths@,
                keys_distinct(self.lifepaths@),
                i <= self.lifepaths@.len(),
                forall|j: int| 0 <= j < i ==> entry_key(self.lifepaths@[j]) != (lifepath@.name, setting@),
            decreases self.lifepaths@.len() - i,
        {
            if str_eq(self.lifepaths[i].1.name.as_str(), lifepath.name.as_str())
                && str_eq(self.lifepaths[i].0.as_str(), setting) {
                let entry = (String::from_str(setting), lifepath);
                proof {
                    lemma_entries_map_update(self.lifepaths@, i as int, entry);
                }
                self.lifepaths.set(i, entry);
                return;
            }
            i = i + 1;
        }
        let entry = (String::from_str(setting), lifepath);
        self.lifepaths.push(entry);
        assert(self.lifepaths@.drop_last() =~= old(self).lifepaths@);
    }

    /// The lifepath held under `name` and `setting`, if any.
    pub fn get_lifepath(&self, name: &str, setting: &str) -> (r: Option<&Lifepath>)
        requires
            self.wf(),
        ensures
            r.is_some() == self@.contains_key((name@, setting@)),
            r.is_some() ==> r.unwrap()@ == self@[(name@, setting@)],
    {
        let mut i: usize = 0;
        while i < self.lifepaths.len()
            invariant
                i <= self.lifepaths@.len(),
                self.wf(),
                forall|j: int| 0 <= j < i ==> entry_key(self.lifepaths@[j]) != (name@, setting@),
            decreases self.lifepaths@.len() - i,
        {
            if str_eq(self.lifepaths[i].1.name.as_str(), name) && str_eq(
                self.lifepaths[i].0.as_str(),
                setting,
            ) {
                proof {
                    lemma_entries_map_at(self.lifepaths@, i as int);
                }
                return Some(&self.lifepaths[i].1);
            }
            i = i + 1;
        }
        proof {
            lemma_entries_map_absent(self.lifepaths@, (name@, setting@));
        }
        None
    }

    /// Every entry held, as (setting name, lifepath); no two share a
    /// lifepath name and a setting name.
    pub fn lifepaths(&self) -> (r: &Vec<(String, Lifepath)>)
        requires
            self.wf(),
        ensures
            keys_distinct(r@),
            entries_map(r@) == self@,
    {
        &self.lifepaths
    }
}

impl Lifepath {
    /// The lifepath's name.
    pub fn name(&self) -> (r: &String)
        ensures
            r@ == self@.name,
    {
        &self.name
    }

    /// Years spent.
    pub fn time(&self) -> (r: i64)
        ensures
            r == self@.time,
    {
        self.time
    }

    /// Resource points spent.
    pub fn resources(&self) -> (r: i64)
        ensures
            r == self@.resources,
    {
        self.resources
    }

    /// The stat boost granted.
    pub fn stat_boost(&self) -> (r: StatBoost)
        ensures
            r == self@.stat_boost,
    {
        self.stat_boost
    }

    /// The lifepaths that may follow.
    pub fn leads(&self) -> (r: &Leads)
        ensures
            r@ == self@.leads,
    {
        &self.leads
    }

    /// Skill points granted.
    pub fn skill_points(&self) -> (r: i64)
        ensures
            r == self@.skill_points,
    {
        self.skill_points
    }

    /// General skill points granted.
    pub fn general_points(&self) -> (r: i64)
        ensures
            r == self@.general_points,
    {
        self.general_points
    }

    /// Trait points granted.
    pub fn trait_points(&self) -> (r: i64)
        ensures
            r == self@.trait_points,
    {
        self.trait_points
    }

    /// The skills that may be taken.
    pub fn skill_list(&self) -> (r: &Vec<String>)
        ensures
            views(r@) == self@.skill_list,
    {
        &self.skill_list
    }

    /// The traits that may be taken.
    pub fn trait_list(&self) -> (r: &Vec<String>)
        ensures
            views(r@) == self@.trait_list,
    {
        &self.trait_list
    }

    /// Requirements for taking the lifepath, if any.
    pub fn requirements(&self) -> (r: &Option<Vec<Requirement>>)
        ensures
            opt_texts(*r) == self@.requirements,
    {
        &self.requirements
    }

    /// Restrictions on taking the lifepath, if any.
    pub fn restrictions(&self) -> (r: &Option<Vec<Restriction>>)
        ensures
            opt_texts(*r) == self@.restrictions,
    {
        &self.restrictions
    }

    /// Notes, if any.
    pub fn note(&self) -> (r: &Option<Vec<Note>>)
        ensures
            opt_texts(*r) == self@.note,
    {
        &self.note
    }
}

/// Storing a second lifepath under the name and setting of a first leaves
/// only the second there, as if the first had never been stored.
pub proof fn lemma_last_write_wins(
    before: Map<(Seq<char>, Seq<char>), LifepathView>,
    first: LifepathView,
    second: LifepathView,
    setting: Seq<char>,
)
    requires
        first.name == second.name,
    ensures
        ({
            let after = before.insert((first.name, setting), first).insert(
                (second.name, setting),
                second,
            );
            &&& after.contains_key((second.name, setting))
            &&& after[(second.name, setting)] == second
            &&& after == before.insert((second.name, setting), second)
        }),
{
    assert(before.insert((first.name, setting), first).insert((second.name, setting), second)
        =~= before.insert((second.name, setting), second));
}

} // verus!
