//! The registry of the tools an agent may call, and which deferred tools
//! have had their schemas activated.
use vstd::prelude::*;

use crate::text::{
    lemma_seq_less_irreflexive, lemma_seq_less_total, lemma_seq_less_transitive, seq_less, str_less,
};

verus! {

/// A tool that the agent can call.
pub trait Tool {
    /// The name under which the tool is offered.
    fn name(&self) -> &str;

    /// What the tool does, as offered to the model.
    fn description(&self) -> &str;

    /// The JSON schema of the tool's input.
    fn input_schema(&self) -> serde_json::Value;

    /// Whether the tool's schema is withheld until a search activates it.
    fn is_deferred(&self) -> bool;
}

/// The definition of a tool as it is offered to the model.
pub struct ToolDef {
    pub name: String,
    pub description: String,
    pub input_schema: serde_json::Value,
    pub deferred: bool,
}

/// The texts of a sequence of strings.
pub open spec fn string_views(v: Seq<String>) -> Seq<Seq<char>> {
    v.map_values(|s: String| s@)
}

/// `tool`'s `name` can answer `name`.
pub open spec fn reports_name<T: Tool>(tool: T, name: Seq<char>) -> bool {
    exists|n: &str| #[trigger] call_ensures(T::name, (&tool,), n) && n@ == name
}

/// `tool`'s `name` can answer something other than `name`.
pub open spec fn reports_other_name<T: Tool>(tool: T, name: Seq<char>) -> bool {
    exists|n: &str| #[trigger] call_ensures(T::name, (&tool,), n) && n@ != name
}

/// `tool`'s `is_deferred` can answer `deferred`.
pub open spec fn reports_deferral<T: Tool>(tool: T, deferred: bool) -> bool {
    call_ensures(T::is_deferred, (&tool,), deferred)
}

/// Each of `tool`'s methods gives one answer only, whenever it is asked.
pub open spec fn answers_fixed<T: Tool>(tool: T) -> bool {
    &&& forall|a: &str, b: &str|
        #[trigger] call_ensures(T::name, (&tool,), a) && #[trigger] call_ensures(
            T::name,
            (&tool,),
            b,
        ) ==> a@ == b@
    &&& forall|a: &str, b: &str|
        #[trigger] call_ensures(T::description, (&tool,), a) && #[trigger] call_ensures(
            T::description,
            (&tool,),
            b,
        ) ==> a@ == b@
    &&& forall|a: serde_json::Value, b: serde_json::Value|
        #[trigger] call_ensures(T::input_schema, (&tool,), a) && #[trigger] call_ensures(
            T::input_schema,
            (&tool,),
            b,
        ) ==> a == b
    &&& forall|a: bool, b: bool|
        #[trigger] call_ensures(T::is_deferred, (&tool,), a) && #[trigger] call_ensures(
            T::is_deferred,
            (&tool,),
            b,
        ) ==> a == b
}

/// A search for `name` among `tools`, asking each tool its name in turn,
/// ends at `found`: the first tool that answered `name`, every tool before
/// it having answered another name; or no tool, each having answered
/// another name.
pub open spec fn lookup<T: Tool>(tools: Seq<T>, name: Seq<char>, found: Option<int>) -> bool {
    match found {
        Some(i) => {
            &&& 0 <= i < tools.len()
            &&& reports_name(tools[i], name)
            &&& forall|j: int| 0 <= j < i ==> #[trigger] reports_other_name(tools[j], name)
        },
        None => forall|j: int| 0 <= j < tools.len() ==> #[trigger] reports_other_name(tools[j], name),
    }
}

/// A position as an integer.
pub open spec fn opt_index(r: Option<usize>) -> Option<int> {
    match r {
        Some(i) => Some(i as int),
        None => None,
    }
}

/// Restoring `name` against `tools` can come out as `activates`: the tool
/// that a search for `name` finds answered `activates` when asked whether
/// it is deferred; where the search finds none, nothing is activated.
pub open spec fn restore_step<T: Tool>(tools: Seq<T>, name: Seq<char>, activates: bool) -> bool {
    exists|found: Option<int>|
        #[trigger] lookup(tools, name, found) && match found {
            Some(i) => reports_deferral(tools[i], activates),
            None => !activates,
        }
}

/// The activated names after restoring `wanted`, where `activates` says
/// which of them came out activated: those join the set.
pub open spec fn restored(
    activated: Set<Seq<char>>,
    wanted: Seq<Seq<char>>,
    activates: Seq<bool>,
) -> Set<Seq<char>> {
    activated.union(
        Set::new(
            |n: Seq<char>|
                exists|k: int| 0 <= k < wanted.len() && #[trigger] activates[k] && wanted[k] == n,
        ),
    )
}

/// The first tool that answers `name` answers that it is deferred.
pub open spec fn registered_deferred<T: Tool>(tools: Seq<T>, name: Seq<char>) -> bool {
    exists|i: int| #[trigger] lookup(tools, name, Some(i)) && reports_deferral(tools[i], true)
}

/// Strictly increasing in the order of [`seq_less`]; so without duplicates.
pub open spec fn strictly_sorted(s: Seq<Seq<char>>) -> bool {
    forall|i: int, j: int| 0 <= i < j < s.len() ==> seq_less(#[trigger] s[i], #[trigger] s[j])
}

/// `d` carries what `tool` reports of itself: the description that its
/// `description` returned and the schema that its `input_schema` returned.
pub open spec fn offers<T: Tool>(d: ToolDef, tool: T) -> bool {
    &&& call_ensures(T::input_schema, (&tool,), d.input_schema)
    &&& exists|s: &str| #[trigger] call_ensures(T::description, (&tool,), s) && d.description@ == s@
}

/// `d` is the definition offered for `tool` while `activated` holds the
/// activated names: it carries a name that the tool answered and what the
/// tool reports of its description and schema; it is deferred where the
/// tool answered that it is deferred and the name it answered when asked
/// again is not activated.
pub open spec fn defines<T: Tool>(d: ToolDef, tool: T, activated: Set<Seq<char>>) -> bool {
    &&& reports_name(tool, d.name@)
    &&& offers(d, tool)
    &&& exists|b: bool|
        #[trigger] reports_deferral(tool, b) && if b {
            exists|n: &str|
                #[trigger] call_ensures(T::name, (&tool,), n) && d.deferred == !activated.contains(
                    n@,
                )
        } else {
            !d.deferred
        }
}

/// The positions that `keep` marks, in increasing order.
pub open spec fn kept(keep: Seq<bool>) -> Seq<int>
    decreases keep.len(),
{
    if keep.len() == 0 {
        Seq::empty()
    } else if keep.last() {
        kept(keep.drop_last()).push(keep.len() - 1)
    } else {
        kept(keep.drop_last())
    }
}

/// The names of matched definitions.
pub open spec fn matched_names(matched: Seq<&ToolDef>) -> Set<Seq<char>> {
    Set::new(
        |n: Seq<char>| exists|i: int| 0 <= i < matched.len() && (#[trigger] matched[i]).name@ == n,
    )
}

/// The tools an agent may call, in registration order, and the names of
/// the deferred tools whose schemas have been activated.
pub struct ToolRegistry<T: Tool = Box<dyn Tool>> {
    tools: Vec<T>,
    activated_tools: Vec<String>,
}

/// A boxed tool answers what the tool inside it answers.
impl<T: Tool + ?Sized> Tool for Box<T> {
    fn name(&self) -> (n: &str)
        ensures
            call_ensures(T::name, (&**self,), n),
    {
        let name_of = T::name;
        name_of(&**self)
    }

    fn description(&self) -> (d: &str)
        ensures
            call_ensures(T::description, (&**self,), d),
    {
        let describe = T::description;
        describe(&**self)
    }

    fn input_schema(&self) -> (s: serde_json::Value)
        ensures
            call_ensures(T::input_schema, (&**self,), s),
    {
        let schema_of = T::input_schema;
        schema_of(&**self)
    }

    fn is_deferred(&self) -> (b: bool)
        ensures
            call_ensures(T::is_deferred, (&**self,), b),
    {
        let deferral_of = T::is_deferred;
        deferral_of(&**self)
    }
}

/// Asks `tool` its name.
fn tool_name<T: Tool>(tool: &T) -> (n: &str)
    ensures
        call_ensures(T::name, (tool,), n),
{
    let name_of = T::name;
    name_of(tool)
}

/// Asks `tool` whether it is deferred.
fn tool_deferred<T: Tool>(tool: &T) -> (b: bool)
    ensures
        reports_deferral(*tool, b),
{
    let deferral_of = T::is_deferred;
    deferral_of(tool)
}

impl<T: Tool> ToolRegistry<T> {
    /// The registered tools, in registration order.
    pub closed spec fn tools(&self) -> Seq<T> {
        self.tools@
    }

    /// The activated names, in increasing order.
    pub closed spec fn activated_list(&self) -> Seq<Seq<char>> {
        string_views(self.activated_tools@)
    }

    /// The activated names.
    pub open spec fn activated(&self) -> Set<Seq<char>> {
        self.activated_list().to_set()
    }

    /// The activated names are kept in increasing order.
    pub closed spec fn wf(&self) -> bool {
        strictly_sorted(self.activated_list())
    }

    /// An empty registry.
    pub fn new() -> (r: Self)
        ensures
            r.wf(),
            r.tools() == Seq::<T>::empty(),
            r.activated_list() == Seq::<Seq<char>>::empty(),
    {
        let r = ToolRegistry { tools: Vec::new(), activated_tools: Vec::new() };
        assert(r.activated_list() =~= Seq::<Seq<char>>::empty());
        r
    }

    /// Adds a tool after those registered.
    pub fn register(&mut self, tool: T)
        requires
            old(self).wf(),
        ensures
            final(self).wf(),
            final(self).tools() == old(self).tools().push(tool),
            final(self).activated_list() == old(self).activated_list(),
    {
        self.tools.push(tool);
    }

    /// The position of the first tool that answers `name` when asked.
    fn find(&self, name: &str) -> (r: Option<usize>)
        ensures
            lookup(self.tools(), name@, opt_index(r)),
    {
        let wanted = name.to_owned();
        let mut i: usize = 0;
        while i < self.tools.len()
            invariant
                i <= self.tools@.len(),
                wanted@ == name@,
                forall|j: int| 0 <= j < i ==> #[trigger] reports_other_name(self.tools()[j], name@),
            decreases self.tools@.len() - i,
        {
            let reported = tool_name(&self.tools[i]);
            let answer = reported.to_owned();
            if answer == wanted {
                assert(reports_name(self.tools()[i as int], name@));
                return Some(i);
            }
            assert(reports_other_name(self.tools()[i as int], name@));
            i = i + 1;
        }
        None
    }

    /// The first tool that answers `name` when asked, if any.
    pub fn get(&self, name: &str) -> (r: Option<&T>)
        requires
            self.wf(),
        ensures
            match r {
                Some(t) => exists|i: int|
                    lookup(self.tools(), name@, Some(i)) && *t == self.tools()[i],
                None => lookup(self.tools(), name@, None),
            },
    {
        match self.find(name) {
            Some(i) => {
                let t = &self.tools[i];
                assert(lookup(self.tools(), name@, Some(i as int)) && *t == self.tools()[i as int]);
                Some(t)
            },
            None => None,
        }
    }

    /// The names of all registered tools, in registration order, each as
    /// the tool answers it.
    pub fn tool_names(&self) -> (r: Vec<String>)
        requires
            self.wf(),
        ensures
            r@.len() == self.tools().len(),
            forall|i: int| 0 <= i < r@.len() ==> reports_name(self.tools()[i], #[trigger] r@[i]@),
    {
        let mut r: Vec<String> = Vec::new();
        let mut i: usize = 0;
        while i < self.tools.len()
            invariant
                i <= self.tools@.len(),
                r@.len() == i,
                forall|j: int| 0 <= j < i ==> reports_name(self.tools()[j], #[trigger] r@[j]@),
            decreases self.tools@.len() - i,
        {
            let reported = tool_name(&self.tools[i]);
            r.push(reported.to_owned());
            assert(reports_name(self.tools()[i as int], r@[i as int]@));
            i = i + 1;
        }
        r
    }

    /// The activated names, in increasing order and each once; what a
    /// session stores to restore the activation later.
    pub fn activated_tool_names(&self) -> (r: Vec<String>)
        requires
            self.wf(),
        ensures
            string_views(r@) == self.activated_list(),
            strictly_sorted(string_views(r@)),
            string_views(r@).no_duplicates(),
            string_views(r@).to_set() == self.activated(),
    {
        let mut r: Vec<String> = Vec::new();
        let mut i: usize = 0;
        while i < self.activated_tools.len()
            invariant
                i <= self.activated_tools@.len(),
                r@.len() == i,
                string_views(r@) == self.activated_list().take(i as int),
            decreases self.activated_tools@.len() - i,
        {
            r.push(self.activated_tools[i].clone());
            assert(string_views(r@) =~= self.activated_list().take(i + 1));
            i = i + 1;
        }
        assert(self.activated_list().take(i as int) =~= self.activated_list());
        proof {
            lemma_sorted_names_unique(string_views(r@));
        }
        r
    }

    /// Activates again those of `names` whose tool, found by its name among
    /// the current tools, answers that it is deferred; other names are
    /// ignored. Schemas and permissions always come from the current tools.
    pub fn restore_activated_tools(&mut self, names: &[String])
        requires
            old(self).wf(),
        ensures
            final(self).wf(),
            final(self).tools() == old(self).tools(),
            exists|activates: Seq<bool>|
                {
                    &&& activates.len() == names@.len()
                    &&& forall|k: int|
                        0 <= k < names@.len() ==> restore_step(
                            old(self).tools(),
                            names@[k]@,
                            #[trigger] activates[k],
                        )
                    &&& final(self).activated() == restored(
                        old(self).activated(),
                        string_views(names@),
                        activates,
                    )
                },
    {
        let ghost start = self.activated();
        let ghost wanted = string_views(names@);
        let ghost mut outcomes: Seq<bool> = Seq::empty();
        let mut k: usize = 0;
        assert(restored(start, wanted.take(0), outcomes) =~= start);
        while k < names.len()
            invariant
                self.wf(),
                k <= names@.len(),
                wanted == string_views(names@),
                self.tools() == old(self).tools(),
                start == old(self).activated(),
                outcomes.len() == k,
                forall|j: int|
                    0 <= j < k ==> restore_step(self.tools(), names@[j]@, #[trigger] outcomes[j]),
                self.activated() == restored(start, wanted.take(k as int), outcomes),
            decreases names@.len() - k,
        {
            let name = &names[k];
            let ghost before = self.activated();
            let position = self.find(name.as_str());
            let found = match position {
                Some(i) => tool_deferred(&self.tools[i]),
                None => false,
            };
            if found {
                self.activate(name.clone());
            }
            proof {
                let n = wanted[k as int];
                assert(n == name@);
                assert(lookup(self.tools(), n, opt_index(position)));
                assert(restore_step(self.tools(), n, found));
                let longer = wanted.take(k + 1);
                let shorter = wanted.take(k as int);
                let grown = outcomes.push(found);
                assert forall|m: Seq<char>|
                    restored(start, longer, grown).contains(m) <==> (if found {
                        before.insert(n)
                    } else {
                        before
                    }).contains(m) by {
                    if exists|j: int| 0 <= j < longer.len() && #[trigger] grown[j] && longer[j] == m {
                        let j = choose|j: int| 0 <= j < longer.len() && #[trigger] grown[j] && longer[j] == m;
                        if j < k {
                            assert(shorter[j] == m && outcomes[j]);
                        }
                    }
                    if exists|j: int| 0 <= j < shorter.len() && #[trigger] outcomes[j] && shorter[j] == m {
                        let j = choose|j: int| 0 <= j < shorter.len() && #[trigger] outcomes[j] && shorter[j] == m;
                        assert(longer[j] == m && grown[j]);
                    }
                    if found && m == n {
                        assert(longer[k as int] == m && grown[k as int]);
                    }
                }
                assert(restored(start, longer, grown) =~= if found {
                    before.insert(n)
                } else {
                    before
                });
                outcomes = grown;
            }
            k = k + 1;
        }
        assert(wanted.take(k as int) =~= wanted);
    }

    /// The definitions offered for all tools, in registration order; a
    /// deferred tool's definition stays deferred until its name is
    /// activated.
    pub fn to_tool_defs(&self) -> (r: Vec<ToolDef>)
        requires
            self.wf(),
        ensures
            r@.len() == self.tools().len(),
            forall|i: int|
                0 <= i < r@.len() ==> defines(#[trigger] r@[i], self.tools()[i], self.activated()),
    {
        let mut r: Vec<ToolDef> = Vec::new();
        let mut i: usize = 0;
        while i < self.tools.len()
            invariant
                self.wf(),
                i <= self.tools@.len(),
                r@.len() == i,
                forall|j: int|
                    0 <= j < i ==> defines(#[trigger] r@[j], self.tools()[j], self.activated()),
            decreases self.tools@.len() - i,
        {
            r.push(self.tool_def(i));
            i = i + 1;
        }
        r
    }

    /// The definitions offered for the tools that `filter` keeps, in
    /// registration order.
    pub fn to_tool_defs_filtered<F>(&self, filter: F) -> (r: Vec<ToolDef>) where
        F: Fn(&T) -> bool,

        requires
            self.wf(),
            forall|i: int| 0 <= i < self.tools().len() ==> filter.requires((&self.tools()[i],)),
        ensures
            exists|keep: Seq<bool>|
                {
                    &&& keep.len() == self.tools().len()
                    &&& forall|i: int|
                        0 <= i < keep.len() ==> filter.ensures(
                            (&self.tools()[i],),
                            #[trigger] keep[i],
                        )
                    &&& r@.len() == kept(keep).len()
                    &&& forall|k: int|
                        0 <= k < r@.len() ==> defines(
                            #[trigger] r@[k],
                            self.tools()[kept(keep)[k]],
                            self.activated(),
                        )
                },
    {
        let mut r: Vec<ToolDef> = Vec::new();
        let ghost mut keep: Seq<bool> = Seq::empty();
        let mut i: usize = 0;
        while i < self.tools.len()
            invariant
                self.wf(),
                i <= self.tools@.len(),
                keep.len() == i,
                forall|j: int| 0 <= j < self.tools().len() ==> filter.requires((&self.tools()[j],)),
                forall|j: int| 0 <= j < i ==> filter.ensures((&self.tools()[j],), #[trigger] keep[j]),
                r@.len() == kept(keep).len(),
                forall|k: int| 0 <= k < kept(keep).len() ==> 0 <= #[trigger] kept(keep)[k] < i,
                forall|k: int|
                    0 <= k < r@.len() ==> defines(
                        #[trigger] r@[k],
                        self.tools()[kept(keep)[k]],
                        self.activated(),
                    ),
            decreases self.tools@.len() - i,
        {
            let b = filter(&self.tools[i]);
            if b {
                r.push(self.tool_def(i));
            }
            proof {
                let before = keep;
                keep = keep.push(b);
                assert(keep.drop_last() =~= before);
            }
            i = i + 1;
        }
        r
    }

    /// Activates the tools that a search for `query` matches among the
    /// current definitions. `query` must be the query that was executed,
    /// never names taken from model or tool output.
    pub fn activate_deferred_tools<F>(&mut self, query: &str, matching_tools: F) where
        F: for <'a>Fn(&'a [ToolDef], &str) -> Vec<&'a ToolDef>,

        requires
            old(self).wf(),
            forall|defs: &[ToolDef], q: &str| matching_tools.requires((defs, q)),
        ensures
            final(self).wf(),
            final(self).tools() == old(self).tools(),
            exists|defs: &[ToolDef], matched: Vec<&ToolDef>|
                {
                    &&& defs@.len() == old(self).tools().len()
                    &&& forall|i: int|
                        0 <= i < defs@.len() ==> defines(
                            #[trigger] defs@[i],
                            old(self).tools()[i],
                            old(self).activated(),
                        )
                    &&& matching_tools.ensures((defs, query), matched)
                    &&& final(self).activated() == old(self).activated().union(
                        matched_names(matched@),
                    )
                },
    {
        let definitions = self.to_tool_defs();
        let defs = definitions.as_slice();
        let matched = matching_tools(defs, query);
        let mut names: Vec<String> = Vec::new();
        let mut k: usize = 0;
        while k < matched.len()
            invariant
                k <= matched@.len(),
                names@.len() == k,
                forall|j: int| 0 <= j < k ==> (#[trigger] names@[j])@ == matched@[j].name@,
            decreases matched@.len() - k,
        {
            names.push(matched[k].name.clone());
            k = k + 1;
        }
        let ghost start = self.activated();
        let mut n: usize = 0;
        while n < names.len()
            invariant
                self.wf(),
                n <= names@.len(),
                names@.len() == matched@.len(),
                forall|j: int| 0 <= j < names@.len() ==> (#[trigger] names@[j])@ == matched@[j].name@,
                self.tools() == old(self).tools(),
                self.activated() == start.union(matched_names(matched@.take(n as int))),
            decreases names@.len() - n,
        {
            self.activate(names[n].clone());
            proof {
                let longer = matched@.take(n + 1);
                let shorter = matched@.take(n as int);
                let added = names@[n as int]@;
                assert forall|m: Seq<char>| matched_names(longer).contains(m) implies matched_names(
                    shorter,
                ).insert(added).contains(m) by {
                    let j = choose|j: int| 0 <= j < longer.len() && (#[trigger] longer[j]).name@ == m;
                    if j < n {
                        assert(shorter[j].name@ == m);
                    }
                }
                assert forall|m: Seq<char>| matched_names(shorter).insert(added).contains(
                    m,
                ) implies matched_names(longer).contains(m) by {
                    if m == added {
                        assert(longer[n as int].name@ == m);
                    } else {
                        let j = choose|j: int|
                            0 <= j < shorter.len() && (#[trigger] shorter[j]).name@ == m;
                        assert(longer[j].name@ == m);
                    }
                }
                assert(matched_names(longer) =~= matched_names(shorter).insert(added));
            }
            n = n + 1;
        }
        assert(matched@.take(n as int) =~= matched@);
    }

    /// The definition offered for tool `i`, made from what the tool answers
    /// now.
    fn tool_def(&self, i: usize) -> (d: ToolDef)
        requires
            self.wf(),
            i < self.tools().len(),
        ensures
            defines(d, self.tools()[i as int], self.activated()),
    {
        let tool = &self.tools[i];
        let reported = tool_name(tool);
        let name = reported.to_owned();
        let describe = T::description;
        let text = describe(tool);
        let schema_of = T::input_schema;
        let input_schema = schema_of(tool);
        let deferred_now = tool_deferred(tool);
        let deferred = if deferred_now {
            let asked_again = tool_name(tool);
            let active = self.is_activated(asked_again);
            assert(call_ensures(T::name, (tool,), asked_again) && !active == !self.activated().contains(
                asked_again@,
            ));
            !active
        } else {
            false
        };
        let d = ToolDef { name, description: text.to_owned(), input_schema, deferred };
        assert(call_ensures(T::description, (tool,), text) && d.description@ == text@);
        assert(reports_name(self.tools()[i as int], d.name@));
        assert(reports_deferral(self.tools()[i as int], deferred_now));
        d
    }

    /// Whether `name` is activated.
    fn is_activated(&self, name: &str) -> (r: bool)
        requires
            self.wf(),
        ensures
            r == self.activated().contains(name@),
    {
        let wanted = name.to_owned();
        let mut i: usize = 0;
        while i < self.activated_tools.len()
            invariant
                i <= self.activated_tools@.len(),
                wanted@ == name@,
                forall|j: int| 0 <= j < i ==> #[trigger] self.activated_list()[j] != name@,
            decreases self.activated_tools@.len() - i,
        {
            if self.activated_tools[i] == wanted {
                assert(self.activated_list()[i as int] == name@);
                return true;
            }
            i = i + 1;
        }
        proof {
            if self.activated().contains(name@) {
                let j = choose|j: int|
                    0 <= j < self.activated_list().len() && self.activated_list()[j] == name@;
                assert(self.activated_list()[j] != name@);
            }
        }
        false
    }

    /// Adds `name` to the activated names, keeping them in order.
    fn activate(&mut self, name: String)
        requires
            old(self).wf(),
        ensures
            final(self).wf(),
            final(self).tools() == old(self).tools(),
            final(self).activated() == old(self).activated().insert(name@),
    {
        let ghost before = self.activated_list();
        let len = self.activated_tools.len();
        let mut i: usize = 0;
        while i < len && str_less(self.activated_tools[i].as_str(), name.as_str())
            invariant
                len == self.activated_tools@.len(),
                before == self.activated_list(),
                strictly_sorted(before),
                i <= len,
                forall|j: int| 0 <= j < i ==> seq_less(#[trigger] before[j], name@),
            decreases len - i,
        {
            i = i + 1;
        }
        if i < len && self.activated_tools[i] == name {
            assert(before.to_set().insert(name@) =~= before.to_set()) by {
                assert(before[i as int] == name@);
            }
            return;
        }
        proof {
            if i < len {
                lemma_seq_less_total(before[i as int], name@);
                assert(seq_less(name@, before[i as int]));
                assert forall|k: int| i < k < len implies seq_less(name@, #[trigger] before[k]) by {
                    lemma_seq_less_transitive(name@, before[i as int], before[k]);
                }
            }
        }
        self.activated_tools.insert(i, name);
        let ghost after = self.activated_list();
        assert(after =~= before.insert(i as int, name@));
        assert(after.to_set() =~= before.to_set().insert(name@)) by {
            assert forall|n: Seq<char>| after.to_set().contains(n) implies before.to_set().insert(
                name@,
            ).contains(n) by {
                let k = choose|k: int| 0 <= k < after.len() && after[k] == n;
                if k < i {
                    assert(before[k] == n);
                } else if k > i {
                    assert(before[k - 1] == n);
                }
            }
            assert forall|n: Seq<char>|
                before.to_set().insert(name@).contains(n) implies after.to_set().contains(n) by {
                if n == name@ {
                    assert(after[i as int] == n);
                } else {
                    let k = choose|k: int| 0 <= k < before.len() && before[k] == n;
                    if k < i {
                        assert(after[k] == n);
                    } else {
                        assert(after[k + 1] == n);
                    }
                }
            }
        }
    }
}

impl<T: Tool> Default for ToolRegistry<T> {
    /// An empty registry.
    fn default() -> (r: Self)
        ensures
            r.wf(),
            r.tools() == Seq::<T>::empty(),
            r.activated_list() == Seq::<Seq<char>>::empty(),
    {
        Self::new()
    }
}

/// Names in strictly increasing order occur once each.
pub proof fn lemma_sorted_names_unique(s: Seq<Seq<char>>)
    requires
        strictly_sorted(s),
    ensures
        s.no_duplicates(),
{
    assert forall|i: int, j: int| 0 <= i < s.len() && 0 <= j < s.len() && i != j implies s[i]
        != s[j] by {
        if s[i] == s[j] {
            lemma_seq_less_irreflexive(s[i]);
            if i < j {
                assert(seq_less(s[i], s[j]));
            } else {
                assert(seq_less(s[j], s[i]));
            }
        }
    }
}

/// Restoring never drops an activated name, and restoring the same names
/// with the same outcomes twice activates no more than doing it once.
pub proof fn lemma_restore_monotone_idempotent(
    activated: Set<Seq<char>>,
    wanted: Seq<Seq<char>>,
    activates: Seq<bool>,
)
    ensures
        activated.subset_of(restored(activated, wanted, activates)),
        restored(restored(activated, wanted, activates), wanted, activates) == restored(
            activated,
            wanted,
            activates,
        ),
{
    assert(restored(restored(activated, wanted, activates), wanted, activates) =~= restored(
        activated,
        wanted,
        activates,
    ));
}

/// Activation survives a resume: where each tool answers one way only and
/// every stored name is that of a registered deferred tool, restoring the
/// stored names into a registry with no activation activates each of them,
/// and yields exactly the stored names.
pub proof fn lemma_restore_round_trip<T: Tool>(
    tools: Seq<T>,
    stored: Seq<Seq<char>>,
    activates: Seq<bool>,
)
    requires
        forall|i: int| 0 <= i < tools.len() ==> answers_fixed(#[trigger] tools[i]),
        forall|k: int| 0 <= k < stored.len() ==> registered_deferred(tools, #[trigger] stored[k]),
        activates.len() == stored.len(),
        forall|k: int| 0 <= k < stored.len() ==> restore_step(tools, stored[k], #[trigger] activates[k]),
    ensures
        forall|k: int| 0 <= k < stored.len() ==> #[trigger] activates[k],
        restored(Set::empty(), stored, activates) == stored.to_set(),
{
    assert forall|k: int| 0 <= k < stored.len() implies #[trigger] activates[k] by {
        let s = stored[k];
        assert(registered_deferred(tools, s));
        let i = choose|i: int| #[trigger] lookup(tools, s, Some(i)) && reports_deferral(tools[i], true);
        assert(restore_step(tools, s, activates[k]));
        let found = choose|found: Option<int>|
            #[trigger] lookup(tools, s, found) && match found {
                Some(p) => reports_deferral(tools[p], activates[k]),
                None => !activates[k],
            };
        lemma_lookup_unique(tools, s, Some(i), found);
        assert(answers_fixed(tools[i]));
    }
    assert forall|n: Seq<char>| stored.to_set().contains(n) implies restored(
        Set::empty(),
        stored,
        activates,
    ).contains(n) by {
        let k = choose|k: int| 0 <= k < stored.len() && stored[k] == n;
        assert(activates[k]);
    }
    assert(restored(Set::empty(), stored, activates) =~= stored.to_set());
}

/// Where each tool answers one way only, a search for a name ends at one
/// place.
pub proof fn lemma_lookup_unique<T: Tool>(
    tools: Seq<T>,
    name: Seq<char>,
    a: Option<int>,
    b: Option<int>,
)
    requires
        forall|i: int| 0 <= i < tools.len() ==> answers_fixed(#[trigger] tools[i]),
        lookup(tools, name, a),
        lookup(tools, name, b),
    ensures
        a == b,
{
    match (a, b) {
        (Some(i), Some(j)) => {
            if i < j {
                assert(reports_other_name(tools[i], name));
                assert(answers_fixed(tools[i]));
            } else if j < i {
                assert(reports_other_name(tools[j], name));
                assert(answers_fixed(tools[j]));
            }
        },
        (Some(i), None) => {
            assert(reports_other_name(tools[i], name));
            assert(answers_fixed(tools[i]));
        },
        (None, Some(j)) => {
            assert(reports_other_name(tools[j], name));
            assert(answers_fixed(tools[j]));
        },
        (None, None) => {},
    }
}

/// A definition is deferred only where its tool answered that it is
/// deferred; and where the tool answers one way only, a tool whose offered
/// name is activated is offered with its full schema.
pub proof fn lemma_definition_deferred_until_activated<T: Tool>(
    d: ToolDef,
    tool: T,
    activated: Set<Seq<char>>,
)
    requires
        defines(d, tool, activated),
    ensures
        d.deferred ==> reports_deferral(tool, true),
        answers_fixed(tool) && activated.contains(d.name@) ==> !d.deferred,
{
    if answers_fixed(tool) && activated.contains(d.name@) && d.deferred {
        let n1 = choose|n: &str| #[trigger] call_ensures(T::name, (&tool,), n) && n@ == d.name@;
        let b = choose|b: bool|
            #[trigger] reports_deferral(tool, b) && if b {
                exists|n: &str|
                    #[trigger] call_ensures(T::name, (&tool,), n) && d.deferred
                        == !activated.contains(n@)
            } else {
                !d.deferred
            };
        let n2 = choose|n: &str|
            #[trigger] call_ensures(T::name, (&tool,), n) && d.deferred == !activated.contains(n@);
        assert(n1@ == n2@);
    }
}

/// After an activation, every matched name that a definition carries is
/// offered with its full schema, whatever the search matched, where each
/// tool answers one way only.
pub proof fn lemma_matched_tools_offered_whole<T: Tool>(
    tools: Seq<T>,
    defs: Seq<ToolDef>,
    activated: Set<Seq<char>>,
    matched: Seq<&ToolDef>,
)
    requires
        forall|i: int| 0 <= i < tools.len() ==> answers_fixed(#[trigger] tools[i]),
        defs.len() == tools.len(),
        forall|i: int| 0 <= i < defs.len() ==> defines(#[trigger] defs[i], tools[i], activated),
        matched_names(matched).subset_of(activated),
    ensures
        forall|i: int|
            0 <= i < defs.len() && matched_names(matched).contains(#[trigger] defs[i].name@)
                ==> !defs[i].deferred,
{
    assert forall|i: int|
        0 <= i < defs.len() && matched_names(matched).contains(#[trigger] defs[i].name@) implies !defs[i].deferred by {
        lemma_definition_deferred_until_activated(defs[i], tools[i], activated);
    }
}

/// Activated names only grow along a sequence of activations and restores:
/// each set is part of every later one.
pub proof fn lemma_activation_chain(steps: Seq<Set<Seq<char>>>)
    requires
        forall|k: int| 0 <= k < steps.len() - 1 ==> (#[trigger] steps[k]).subset_of(steps[k + 1]),
    ensures
        forall|i: int, j: int|
            0 <= i <= j < steps.len() ==> (#[trigger] steps[i]).subset_of(#[trigger] steps[j]),
    decreases steps.len(),
{
    if steps.len() > 1 {
        let front = steps.drop_last();
        lemma_activation_chain(front);
        assert forall|i: int, j: int| 0 <= i <= j < steps.len() implies (
        #[trigger] steps[i]).subset_of(#[trigger] steps[j]) by {
            if j == steps.len() - 1 && i < j {
                assert(front[i].subset_of(front[j - 1]));
            } else if j < steps.len() - 1 {
                assert(front[i].subset_of(front[j]));
            }
        }
    }
}

/// Definitions survive activations and restores: where each tool answers
/// one way only, and the activated names only grew from `steps[0]` to the
/// last of `steps` (as every activation and restore ensures), the
/// definitions offered at the end list the same tools with the same name,
/// description and schema as those offered at the start, and a definition
/// deferred at the end was deferred at the start.
pub proof fn lemma_definitions_survive_activation<T: Tool>(
    tools: Seq<T>,
    steps: Seq<Set<Seq<char>>>,
    first: Seq<ToolDef>,
    last: Seq<ToolDef>,
)
    requires
        forall|i: int| 0 <= i < tools.len() ==> answers_fixed(#[trigger] tools[i]),
        steps.len() > 0,
        forall|k: int| 0 <= k < steps.len() - 1 ==> (#[trigger] steps[k]).subset_of(steps[k + 1]),
        first.len() == tools.len(),
        last.len() == tools.len(),
        forall|i: int| 0 <= i < first.len() ==> defines(#[trigger] first[i], tools[i], steps[0]),
        forall|i: int| 0 <= i < last.len() ==> defines(#[trigger] last[i], tools[i], steps.last()),
    ensures
        last.len() == first.len(),
        forall|i: int|
            0 <= i < last.len() ==> {
                &&& (#[trigger] last[i]).name@ == first[i].name@
                &&& last[i].description@ == first[i].description@
                &&& last[i].input_schema == first[i].input_schema
                &&& last[i].deferred ==> first[i].deferred
            },
{
    lemma_activation_chain(steps);
    assert(steps[0].subset_of(steps[steps.len() - 1]));
    assert forall|i: int| 0 <= i < last.len() implies {
        &&& (#[trigger] last[i]).name@ == first[i].name@
        &&& last[i].description@ == first[i].description@
        &&& last[i].input_schema == first[i].input_schema
        &&& last[i].deferred ==> first[i].deferred
    } by {
        let t = tools[i];
        assert(answers_fixed(t));
        assert(defines(first[i], t, steps[0]));
        assert(defines(last[i], t, steps.last()));
        let n1 = choose|n: &str| #[trigger] call_ensures(T::name, (&t,), n) && n@ == first[i].name@;
        let n2 = choose|n: &str| #[trigger] call_ensures(T::name, (&t,), n) && n@ == last[i].name@;
        let s1 = choose|s: &str| #[trigger] call_ensures(T::description, (&t,), s) && first[i].description@ == s@;
        let s2 = choose|s: &str| #[trigger] call_ensures(T::description, (&t,), s) && last[i].description@ == s@;
        if last[i].deferred {
            lemma_definition_deferred_until_activated(last[i], t, steps.last());
            lemma_definition_deferred_until_activated(first[i], t, steps[0]);
            let b1 = choose|b: bool|
                #[trigger] reports_deferral(t, b) && if b {
                    exists|n: &str|
                        #[trigger] call_ensures(T::name, (&t,), n) && first[i].deferred
                            == !steps[0].contains(n@)
                } else {
                    !first[i].deferred
                };
            let b2 = choose|b: bool|
                #[trigger] reports_deferral(t, b) && if b {
                    exists|n: &str|
                        #[trigger] call_ensures(T::name, (&t,), n) && last[i].deferred
                            == !steps.last().contains(n@)
                } else {
                    !last[i].deferred
                };
            assert(b1 == b2);
            let m1 = choose|n: &str|
                #[trigger] call_ensures(T::name, (&t,), n) && first[i].deferred
                    == !steps[0].contains(n@);
            let m2 = choose|n: &str|
                #[trigger] call_ensures(T::name, (&t,), n) && last[i].deferred
                    == !steps.last().contains(n@);
            assert(m1@ == m2@);
        }
    }
}

/// A boxed tool answers exactly what the tool inside it answers: whatever
/// the box's `name`, `description`, `input_schema` or `is_deferred` returns
/// is a result of the same method of the inner tool.
pub proof fn lemma_box_answers_as_inner<T: Tool + ?Sized>(
    b: Box<T>,
    name: &str,
    description: &str,
    schema: serde_json::Value,
    deferred: bool,
)
    ensures
        call_ensures(<Box<T> as Tool>::name, (&b,), name) ==> call_ensures(
            T::name,
            (&*b,),
            name,
        ),
        call_ensures(<Box<T> as Tool>::description, (&b,), description) ==> call_ensures(
            T::description,
            (&*b,),
            description,
        ),
        call_ensures(<Box<T> as Tool>::input_schema, (&b,), schema) ==> call_ensures(
            T::input_schema,
            (&*b,),
            schema,
        ),
        call_ensures(<Box<T> as Tool>::is_deferred, (&b,), deferred) ==> call_ensures(
            T::is_deferred,
            (&*b,),
            deferred,
        ),
{
}

} // verus!
