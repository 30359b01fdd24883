//! The records kept for each document, the teams, and the dictionary of tags.
use vstd::prelude::*;
use crate::errors::Error;
use crate::text::{lemma_texts_push, same_text, texts};

verus! {

/// The schema version that this library writes into every record it creates.
pub const METADATA_VERSION: u64 = 1;

/// A team that a document can belong to.
#[derive(Debug, Clone, Copy, PartialEq, Eq, Hash, Structural)]
pub enum Team {
    Lang,
    Libs,
    Core,
    Tools,
    Compiler,
    Docs,
}

impl Team {
    /// The team's name as it is shown.
    pub open spec fn name(self) -> Seq<char> {
        match self {
            Team::Lang => "lang"@,
            Team::Libs => "libs"@,
            Team::Core => "core"@,
            Team::Tools => "tools"@,
            Team::Compiler => "compiler"@,
            Team::Docs => "docs"@,
        }
    }

    /// The team that a text names, if it names one.
    pub open spec fn named(s: Seq<char>) -> Option<Team> {
        if s == "t-lang"@ {
            Some(Team::Lang)
        } else if s == "t-libs"@ {
            Some(Team::Libs)
        } else if s == "t-core"@ {
            Some(Team::Core)
        } else if s == "t-tools"@ {
            Some(Team::Tools)
        } else if s == "t-compiler"@ {
            Some(Team::Compiler)
        } else if s == "t-docs"@ {
            Some(Team::Docs)
        } else {
            None
        }
    }

    /// Reads a team from its name: "t-lang", "t-libs", "t-core", "t-tools",
    /// "t-compiler" or "t-docs". Any other text is refused and handed back in
    /// the error.
    pub fn from_str(s: &str) -> (r: Result<Team, Error>)
        ensures
            match r {
                Ok(team) => Team::named(s@) == Some(team),
                Err(e) => Team::named(s@) is None && (e matches Error::ParseTag(t) && t@ == s@),
            },
    {
        if same_text(s, "t-lang") {
            Ok(Team::Lang)
        } else if same_text(s, "t-libs") {
            Ok(Team::Libs)
        } else if same_text(s, "t-core") {
            Ok(Team::Core)
        } else if same_text(s, "t-tools") {
            Ok(Team::Tools)
        } else if same_text(s, "t-compiler") {
            Ok(Team::Compiler)
        } else if same_text(s, "t-docs") {
            Ok(Team::Docs)
        } else {
            Err(Error::ParseTag(s.to_owned()))
        }
    }

    /// The team's name as it is shown: "lang", "libs", "core", "tools",
    /// "compiler" or "docs".
    pub fn to_string(&self) -> (s: String)
        ensures
            s@ == self.name(),
    {
        match self {
            Team::Lang => "lang".to_owned(),
            Team::Libs => "libs".to_owned(),
            Team::Core => "core".to_owned(),
            Team::Tools => "tools".to_owned(),
            Team::Compiler => "compiler".to_owned(),
            Team::Docs => "docs".to_owned(),
        }
    }
}

/// What a record says, as plain mathematical values.
pub struct Record {
    pub version: u64,
    pub number: u64,
    pub filename: Seq<char>,
    pub start_date: Seq<char>,
    pub feature_name: Seq<Seq<char>>,
    pub issues: Seq<Seq<char>>,
    pub title: Option<Seq<char>>,
    pub teams: Seq<Team>,
    pub tags: Seq<Seq<char>>,
}

/// The text of an optional string.
pub open spec fn opt_text(s: Option<String>) -> Option<Seq<char>> {
    match s {
        Some(t) => Some(t@),
        None => None,
    }
}

/// The record kept for one document.
#[derive(Debug)]
pub struct RfcMetadata {
    /// The schema version under which the record was written.
    pub version: u64,
    /// The document's number, which identifies the record.
    pub number: u64,
    /// The document's file name in the source repository.
    pub filename: String,
    pub start_date: String,
    /// The names of the feature flags, in order.
    pub feature_name: Vec<String>,
    /// The tracking issues, in order.
    pub issues: Vec<String>,
    pub title: Option<String>,
    /// The teams, in the order in which they were added; none occurs twice.
    pub teams: Vec<Team>,
    /// The tags, in the order in which they were added; none occurs twice.
    pub tags: Vec<String>,
}

impl View for RfcMetadata {
    type V = Record;

    open spec fn view(&self) -> Record {
        Record {
            version: self.version,
            number: self.number,
            filename: self.filename@,
            start_date: self.start_date@,
            feature_name: texts(self.feature_name@),
            issues: texts(self.issues@),
            title: opt_text(self.title),
            teams: self.teams@,
            tags: texts(self.tags@),
        }
    }
}

impl Record {
    /// Neither a team nor a tag occurs twice.
    pub open spec fn well_formed(self) -> bool {
        self.teams.no_duplicates() && self.tags.no_duplicates()
    }
}

/// A copy of a list of strings.
pub fn clone_strings(v: &Vec<String>) -> (r: Vec<String>)
    ensures
        texts(r@) == texts(v@),
{
    let mut r: Vec<String> = Vec::new();
    let mut i: usize = 0;
    while i < v.len()
        invariant
            i <= v.len(),
            texts(r@) == texts(v@.take(i as int)),
        decreases v.len() - i,
    {
        let ghost before = r@;
        r.push(v[i].clone());
        i += 1;
        proof {
            lemma_texts_push(before, v@[i - 1]);
            lemma_texts_push(v@.take(i - 1), v@[i - 1]);
        }
    }
    r
}

/// A copy of a list of teams.
pub fn clone_teams(v: &Vec<Team>) -> (r: Vec<Team>)
    ensures
        r@ == v@,
{
    let mut r: Vec<Team> = Vec::new();
    let mut i: usize = 0;
    while i < v.len()
        invariant
            i <= v.len(),
            r@ == v@.take(i as int),
        decreases v.len() - i,
    {
        r.push(v[i]);
        i += 1;
    }
    r
}

impl RfcMetadata {
    /// A record of the current schema version with the given number, file
    /// name and start date, and nothing else.
    pub fn new(number: u64, filename: String, start_date: String) -> (r: RfcMetadata)
        ensures
            r@ == (Record {
                version: METADATA_VERSION,
                number,
                filename: filename@,
                start_date: start_date@,
                feature_name: Seq::empty(),
                issues: Seq::empty(),
                title: None,
                teams: Seq::empty(),
                tags: Seq::empty(),
            }),
    {
        let r = RfcMetadata {
            version: METADATA_VERSION,
            number,
            filename,
            start_date,
            feature_name: Vec::new(),
            issues: Vec::new(),
            title: None,
            teams: Vec::new(),
            tags: Vec::new(),
        };
        assert(texts(r.feature_name@) =~= Seq::empty());
        assert(texts(r.issues@) =~= Seq::empty());
        assert(texts(r.tags@) =~= Seq::empty());
        r
    }
}

impl Clone for RfcMetadata {
    fn clone(&self) -> (r: RfcMetadata)
        ensures
            r@ == self@,
    {
        let title = match &self.title {
            Some(t) => Some(t.clone()),
            None => None,
        };
        RfcMetadata {
            version: self.version,
            number: self.number,
            filename: self.filename.clone(),
            start_date: self.start_date.clone(),
            feature_name: clone_strings(&self.feature_name),
            issues: clone_strings(&self.issues),
            title,
            teams: clone_teams(&self.teams),
            tags: clone_strings(&self.tags),
        }
    }
}

/// The tags that belong to one team.
#[derive(Debug)]
pub struct TeamTags {
    pub team: Team,
    pub tags: Vec<String>,
}

impl Clone for TeamTags {
    fn clone(&self) -> (r: TeamTags)
        ensures
            r.team == self.team,
            texts(r.tags@) == texts(self.tags@),
    {
        TeamTags { team: self.team, tags: clone_strings(&self.tags) }
    }
}

/// The team and the tags of each list.
pub open spec fn lists_view(lists: Seq<TeamTags>) -> Seq<(Team, Seq<Seq<char>>)> {
    lists.map_values(|l: TeamTags| (l.team, texts(l.tags@)))
}

/// The teams under which one tag is known.
#[derive(Debug)]
pub struct TagTeams {
    pub tag: String,
    pub teams: Vec<Team>,
}

/// The dictionary of tags as mathematical maps.
pub struct TagDictionary {
    /// For each known tag, the teams under which it is listed.
    pub by_tag: Map<Seq<char>, Set<Team>>,
    /// For each team that has a list, its tags in order.
    pub by_team: Map<Team, Seq<Seq<char>>>,
}

impl TagDictionary {
    /// `by_tag` is the inverse of `by_team`: a tag is known exactly if some
    /// team lists it, and it is known under exactly the teams that list it.
    pub open spec fn inverse(self) -> bool {
        &&& forall|tag: Seq<char>|
            self.by_tag.dom().contains(tag) <==> exists|team: Team|
                self.by_team.dom().contains(team) && #[trigger] self.by_team[team].contains(tag)
        &&& forall|tag: Seq<char>, team: Team|
            self.by_tag.dom().contains(tag) ==> (#[trigger] self.by_tag[tag].contains(team) <==> (
            self.by_team.dom().contains(team) && self.by_team[team].contains(tag)))
    }
}

/// The list of a team among the given lists: the last one given for it.
pub open spec fn team_list(lists: Seq<(Team, Seq<Seq<char>>)>, team: Team) -> Option<
    Seq<Seq<char>>,
>
    decreases lists.len(),
{
    if lists.len() == 0 {
        None
    } else if lists.last().0 == team {
        Some(lists.last().1)
    } else {
        team_list(lists.drop_last(), team)
    }
}

/// Whether the team has a list among the given ones and that list holds the tag.
pub open spec fn listed(lists: Seq<(Team, Seq<Seq<char>>)>, team: Team, tag: Seq<char>) -> bool {
    team_list(lists, team) matches Some(list) && list.contains(tag)
}

/// The tags that the list of some team holds.
pub open spec fn known_tags(lists: Seq<(Team, Seq<Seq<char>>)>) -> Set<Seq<char>> {
    Set::new(|tag: Seq<char>| exists|team: Team| listed(lists, team, tag))
}

/// Whether some entry is for the given tag.
pub open spec fn tag_known(entries: Seq<TagTeams>, tag: Seq<char>) -> bool {
    exists|j: int| 0 <= j < entries.len() && (#[trigger] entries[j]).tag@ == tag
}

/// Whether some entry for the given tag names the given team.
pub open spec fn tag_names(entries: Seq<TagTeams>, tag: Seq<char>, team: Team) -> bool {
    exists|j: int|
        0 <= j < entries.len() && (#[trigger] entries[j]).tag@ == tag && entries[j].teams@.contains(
            team,
        )
}

/// The dictionary of tags: which tags each team lists, and under which teams
/// each tag is known.
#[derive(Debug)]
pub struct TagMetadata {
    /// One entry for each known tag.
    pub by_tag: Vec<TagTeams>,
    /// The teams' lists; where a team has several, the last counts.
    pub by_team: Vec<TeamTags>,
}

impl View for TagMetadata {
    type V = TagDictionary;

    open spec fn view(&self) -> TagDictionary {
        TagDictionary {
            by_tag: Map::new(
                |tag: Seq<char>| tag_known(self.by_tag@, tag),
                |tag: Seq<char>| Set::new(|team: Team| tag_names(self.by_tag@, tag, team)),
            ),
            by_team: Map::new(
                |team: Team| team_list(lists_view(self.by_team@), team) is Some,
                |team: Team| team_list(lists_view(self.by_team@), team)->0,
            ),
        }
    }
}

impl TagMetadata {
    /// Tests whether the dictionary knows the given tag.
    pub fn contains_tag(&self, tag: &String) -> (b: bool)
        ensures
            b == self@.by_tag.dom().contains(tag@),
    {
        let mut j: usize = 0;
        while j < self.by_tag.len()
            invariant
                j <= self.by_tag.len(),
                forall|k: int| 0 <= k < j ==> (#[trigger] self.by_tag@[k]).tag@ != tag@,
            decreases self.by_tag.len() - j,
        {
            if self.by_tag[j].tag == *tag {
                return true;
            }
            j += 1;
        }
        false
    }

    /// The list of the given team, if it has one.
    pub fn tags_of(&self, team: Team) -> (r: Option<&Vec<String>>)
        ensures
            match r {
                Some(tags) => self@.by_team.dom().contains(team) && self@.by_team[team] == texts(
                    tags@,
                ),
                None => !self@.by_team.dom().contains(team),
            },
    {
        match find_list(&self.by_team, team) {
            Some(i) => Some(&self.by_team[i].tags),
            None => None,
        }
    }

    /// The dictionary of the given lists. Its `by_team` is the lists as they
    /// are given; its `by_tag` is derived from them, and is their inverse.
    pub fn new(lists: Vec<TeamTags>) -> (r: TagMetadata)
        ensures
            r.by_team == lists,
            r@.inverse(),
            r@.by_tag.dom() == known_tags(lists_view(lists@)),
    {
        let ghost all = lists_view(lists@);
        let mut by_tag: Vec<TagTeams> = Vec::new();
        enter_team(&mut by_tag, &lists, Team::Lang);
        enter_team(&mut by_tag, &lists, Team::Libs);
        enter_team(&mut by_tag, &lists, Team::Core);
        enter_team(&mut by_tag, &lists, Team::Tools);
        enter_team(&mut by_tag, &lists, Team::Compiler);
        enter_team(&mut by_tag, &lists, Team::Docs);
        let r = TagMetadata { by_tag, by_team: lists };
        proof {
            assert forall|tag: Seq<char>, team: Team|
                tag_names(r.by_tag@, tag, team) <==> listed(all, team, tag) by {
                match team {
                    Team::Lang => {},
                    Team::Libs => {},
                    Team::Core => {},
                    Team::Tools => {},
                    Team::Compiler => {},
                    Team::Docs => {},
                }
            }
            assert forall|tag: Seq<char>|
                tag_known(r.by_tag@, tag) <==> exists|team: Team| listed(all, team, tag) by {
                if tag_known(r.by_tag@, tag) {
                    let j = choose|j: int|
                        0 <= j < r.by_tag@.len() && (#[trigger] r.by_tag@[j]).tag@ == tag;
                    let team = r.by_tag@[j].teams@[0];
                    assert(listed(all, team, tag));
                }
            }
            let d = r@;
            assert forall|tag: Seq<char>|
                d.by_tag.dom().contains(tag) <==> exists|team: Team|
                    d.by_team.dom().contains(team) && #[trigger] d.by_team[team].contains(tag) by {
                if d.by_tag.dom().contains(tag) {
                    let team = choose|team: Team| listed(all, team, tag);
                    assert(d.by_team.dom().contains(team) && d.by_team[team].contains(tag));
                }
                if exists|team: Team|
                    d.by_team.dom().contains(team) && #[trigger] d.by_team[team].contains(tag) {
                    let team = choose|team: Team|
                        d.by_team.dom().contains(team) && #[trigger] d.by_team[team].contains(tag);
                    assert(listed(all, team, tag));
                }
            }
        }
        r
    }
}

/// Finds the list of a team among the given lists: the last one given for it.
fn find_list(lists: &Vec<TeamTags>, team: Team) -> (r: Option<usize>)
    ensures
        match r {
            Some(i) => i < lists@.len() && team_list(lists_view(lists@), team) == Some(
                texts(lists@[i as int].tags@),
            ),
            None => team_list(lists_view(lists@), team) is None,
        },
{
    let ghost all = lists_view(lists@);
    let mut j: usize = lists.len();
    assert(all.take(j as int) == all);
    while j > 0
        invariant
            j <= lists.len(),
            all == lists_view(lists@),
            team_list(all, team) == team_list(all.take(j as int), team),
        decreases j,
    {
        let ghost front = all.take(j as int);
        if lists[j - 1].team == team {
            return Some(j - 1);
        }
        assert(front.drop_last() == all.take(j - 1));
        j -= 1;
    }
    None
}

/// Whether every entry names at least one team.
pub open spec fn all_named(entries: Seq<TagTeams>) -> bool {
    forall|j: int| 0 <= j < entries.len() ==> (#[trigger] entries[j]).teams@.len() > 0
}

/// Tests whether a list of teams holds the given team.
pub fn contains_team(teams: &Vec<Team>, team: Team) -> (b: bool)
    ensures
        b == teams@.contains(team),
{
    let mut i: usize = 0;
    while i < teams.len()
        invariant
            i <= teams.len(),
            forall|k: int| 0 <= k < i ==> teams@[k] != team,
        decreases teams.len() - i,
    {
        if teams[i] == team {
            return true;
        }
        i += 1;
    }
    false
}

/// Enters one tag under one team.
fn enter_tag(by_tag: &mut Vec<TagTeams>, tag: &String, team: Team)
    requires
        all_named(old(by_tag)@),
    ensures
        all_named(final(by_tag)@),
        forall|t: Seq<char>, tm: Team|
            #![trigger tag_names(final(by_tag)@, t, tm)]
            tag_names(final(by_tag)@, t, tm) <==> tag_names(old(by_tag)@, t, tm) || (t == tag@ && tm
                == team),
{
    let ghost before = by_tag@;
    let mut j: usize = 0;
    while j < by_tag.len()
        invariant
            j <= by_tag.len(),
            by_tag@ == before,
            forall|k: int| 0 <= k < j ==> (#[trigger] before[k]).tag@ != tag@,
        ensures
            j <= by_tag.len(),
            by_tag@ == before,
            forall|k: int| 0 <= k < j ==> (#[trigger] before[k]).tag@ != tag@,
            j < by_tag.len() ==> before[j as int].tag@ == tag@,
        decreases by_tag.len() - j,
    {
        if by_tag[j].tag == *tag {
            break;
        }
        j += 1;
    }
    if j < by_tag.len() {
        if !contains_team(&by_tag[j].teams, team) {
            let mut teams = clone_teams(&by_tag[j].teams);
            teams.push(team);
            let entry = TagTeams { tag: tag.clone(), teams };
            by_tag.set(j, entry);
            proof {
                let after = by_tag@;
                assert(after[j as int].teams@.last() == team);
                assert forall|t: Seq<char>, tm: Team|
                    tag_names(after, t, tm) <==> tag_names(before, t, tm) || (t == tag@ && tm
                        == team) by {
                    if tag_names(before, t, tm) {
                        let k = choose|k: int|
                            0 <= k < before.len() && (#[trigger] before[k]).tag@ == t
                                && before[k].teams@.contains(tm);
                        if k == j {
                            let w = choose|w: int|
                                0 <= w < before[k].teams@.len() && before[k].teams@[w] == tm;
                            assert(after[k].teams@[w] == tm);
                        }
                        assert(after[k].tag@ == t && after[k].teams@.contains(tm));
                    }
                    if t == tag@ && tm == team {
                        assert(after[j as int].tag@ == t && after[j as int].teams@.contains(tm));
                    }
                    if tag_names(after, t, tm) {
                        let k = choose|k: int|
                            0 <= k < after.len() && (#[trigger] after[k]).tag@ == t
                                && after[k].teams@.contains(tm);
                        if k == j {
                            let w = choose|w: int|
                                0 <= w < after[k].teams@.len() && after[k].teams@[w] == tm;
                            if w < before[k].teams@.len() {
                                assert(before[k].teams@[w] == tm);
                                assert(before[k].tag@ == t && before[k].teams@.contains(tm));
                            }
                        } else {
                            assert(before[k].tag@ == t && before[k].teams@.contains(tm));
                        }
                    }
                }
            }
        } else {
            assert(before[j as int].tag@ == tag@ && before[j as int].teams@.contains(team));
        }
    } else {
        let mut teams: Vec<Team> = Vec::new();
        teams.push(team);
        let entry = TagTeams { tag: tag.clone(), teams };
        by_tag.push(entry);
        proof {
            let after = by_tag@;
            let n = before.len() as int;
            assert(after[n].teams@[0] == team);
            assert forall|t: Seq<char>, tm: Team|
                tag_names(after, t, tm) <==> tag_names(before, t, tm) || (t == tag@ && tm
                    == team) by {
                if tag_names(before, t, tm) {
                    let k = choose|k: int|
                        0 <= k < before.len() && (#[trigger] before[k]).tag@ == t
                            && before[k].teams@.contains(tm);
                    assert(after[k].tag@ == t && after[k].teams@.contains(tm));
                }
                if t == tag@ && tm == team {
                    assert(after[n].tag@ == t && after[n].teams@.contains(tm));
                }
                if tag_names(after, t, tm) {
                    let k = choose|k: int|
                        0 <= k < after.len() && (#[trigger] after[k]).tag@ == t
                            && after[k].teams@.contains(tm);
                    if k < n {
                        assert(before[k].tag@ == t && before[k].teams@.contains(tm));
                    } else {
                        assert(after[n].teams@ =~= seq![team]);
                    }
                }
            }
        }
    }
}

/// Enters the tags of a team's list, if the team has one, under that team.
fn enter_team(by_tag: &mut Vec<TagTeams>, lists: &Vec<TeamTags>, team: Team)
    requires
        all_named(old(by_tag)@),
    ensures
        all_named(final(by_tag)@),
        forall|t: Seq<char>, tm: Team|
            #![trigger tag_names(final(by_tag)@, t, tm)]
            tag_names(final(by_tag)@, t, tm) <==> tag_names(old(by_tag)@, t, tm) || (tm == team
                && listed(lists_view(lists@), team, t)),
{
    let ghost before = by_tag@;
    match find_list(lists, team) {
        Some(i) => {
            let tags = &lists[i].tags;
            let ghost list = texts(tags@);
            let mut b: usize = 0;
            while b < tags.len()
                invariant
                    b <= tags.len(),
                    list == texts(tags@),
                    all_named(by_tag@),
                    forall|t: Seq<char>, tm: Team|
                        #![trigger tag_names(by_tag@, t, tm)]
                        tag_names(by_tag@, t, tm) <==> tag_names(before, t, tm) || (tm == team
                            && list.take(b as int).contains(t)),
                decreases tags.len() - b,
            {
                let ghost current = by_tag@;
                enter_tag(by_tag, &tags[b], team);
                proof {
                    let shorter = list.take(b as int);
                    let longer = list.take(b + 1);
                    assert(longer == shorter.push(tags@[b as int]@));
                    assert forall|t: Seq<char>| longer.contains(t) <==> shorter.contains(t) || t
                        == tags@[b as int]@ by {
                        if shorter.contains(t) {
                            let w = choose|w: int| 0 <= w < shorter.len() && shorter[w] == t;
                            assert(longer[w] == t);
                        }
                        if t == tags@[b as int]@ {
                            assert(longer[b as int] == t);
                        }
                    }
                    assert forall|t: Seq<char>, tm: Team|
                        tag_names(by_tag@, t, tm) <==> tag_names(before, t, tm) || (tm == team
                            && longer.contains(t)) by {
                        assert(tag_names(by_tag@, t, tm) <==> tag_names(current, t, tm) || (t
                            == tags@[b as int]@ && tm == team));
                        assert(tag_names(current, t, tm) <==> tag_names(before, t, tm) || (tm
                            == team && shorter.contains(t)));
                        assert(longer.contains(t) <==> shorter.contains(t) || t
                            == tags@[b as int]@);
                    }
                }
                b += 1;
            }
            assert(list.take(b as int) == list);
        },
        None => {},
    }
}

} // verus!
