//! Project instructions.

use xfx::workspace::context::{
    escape_attribute, load_rule, normalize, Answer, Ask, ContextLimits, ContextScopeKind,
    OmissionReason, ProjectContext, RuleLoad, Sighting, Stat, CONTEXT_FILE_NAME, CONTEXT_GUIDANCE,
};
use xfx::workspace::path::{path_inside, AccessScope, Directory, Location};

fn at(text: &str) -> Location {
    Location::parse(text.as_bytes())
}

fn scope_at(root: &str) -> AccessScope {
    AccessScope::primary_only((root.to_string(), Directory::Real(at(root)))).expect("a usable root")
}

/// What stands at a path of a small tree.
enum Entry {
    File(&'static str),
    Long(u64),
    Folder,
    Link(&'static str),
    Locked,
}

/// A tree to read instruction files from.
struct Tree(Vec<(&'static str, Entry)>);

impl Tree {
    fn entry(&self, path: &Location) -> Option<&Entry> {
        self.0
            .iter()
            .find(|(name, _)| at(name) == *path)
            .map(|(_, entry)| entry)
    }

    /// The path with every link on it followed.
    fn followed(&self, path: &Location) -> Location {
        let mut reached = at("/");
        for name in path.bytes().split(|&byte| byte == b'/') {
            if !name.is_empty() {
                reached = reached.child(name);
            }
            while let Some(Entry::Link(to)) = self.entry(&reached) {
                reached = at(to);
            }
        }
        reached
    }

    /// What is at a path, a link at its very end not followed.
    fn at_path(&self, path: &Location) -> Option<&Entry> {
        let bytes = path.bytes();
        let name = bytes.rsplit(|&byte| byte == b'/').next().unwrap_or(&[]);
        let parent = path.parent().unwrap_or_else(|| at("/"));
        self.entry(&self.followed(&parent).child(name))
    }

    fn sighting(&self, path: &Location) -> Sighting {
        match self.at_path(path) {
            None => Sighting::Missing,
            Some(Entry::Link(_)) => Sighting::Symlink,
            Some(Entry::Locked) => Sighting::Failed,
            Some(_) => Sighting::Other,
        }
    }

    fn answer(&self, ask: &Ask) -> Answer {
        match ask {
            Ask::Link { path, .. } => Answer::Link(self.sighting(path)),
            Ask::Way { directory, .. } => Answer::Link(self.sighting(directory)),
            Ask::Resolve { parent, path, .. } => Answer::Resolved(
                self.entry(&self.followed(path))
                    .map(|_| (self.followed(parent), self.followed(path))),
            ),
            Ask::Stat { target } => Answer::Stat(match self.entry(target) {
                None => Stat::Missing,
                Some(Entry::File(text)) => Stat::File {
                    len: text.len() as u64,
                },
                Some(Entry::Long(len)) => Stat::File { len: *len },
                Some(Entry::Folder) => Stat::Irregular,
                Some(_) => Stat::Failed,
            }),
            Ask::Read { target } => Answer::Text(match self.entry(target) {
                Some(Entry::File(text)) => Some(text.to_string()),
                _ => None,
            }),
            Ask::Done { .. } => unreachable!("nothing is asked"),
        }
    }

    fn run(&self, first: Ask, limits: &ContextLimits) -> RuleLoad {
        let mut ask = first;
        loop {
            if let Ask::Done { load } = ask {
                return load;
            }
            let answer = self.answer(&ask);
            ask = ask.next(limits.max_file_bytes, answer);
        }
    }

    fn load(&self, scope: &Location, limits: &ContextLimits) -> RuleLoad {
        self.run(
            load_rule(&scope.child(CONTEXT_FILE_NAME.as_bytes())),
            limits,
        )
    }

    fn discover_with(&self, scope: &AccessScope, limits: ContextLimits) -> ProjectContext {
        let loads = ProjectContext::discovery(scope)
            .iter()
            .map(|scope| self.load(scope, &limits))
            .collect();
        ProjectContext::discover_with(scope, limits, loads)
    }

    fn discover(&self, scope: &AccessScope) -> ProjectContext {
        let limits = ContextLimits::default();
        let loads = ProjectContext::discovery(scope)
            .iter()
            .map(|scope| self.load(scope, &limits))
            .collect();
        ProjectContext::discover(scope, loads)
    }

    fn reach_for(&self, context: &mut ProjectContext, target: &str) -> Option<String> {
        let target = at(target);
        let limits = context.limits();
        let is_dir = context
            .target_of(&target)
            .map_or(false, |path| {
                matches!(self.entry(&self.followed(&path)), Some(Entry::Folder))
            });
        let loads = context
            .pending(&target, is_dir)
            .iter()
            .map(|scope| self.run(context.load_nested(scope), &limits))
            .collect();
        context.admit_target(&target, is_dir, loads)
    }
}

#[test]
fn an_empty_context_renders_nothing_at_all() {
    let context = ProjectContext::none();
    assert!(context.is_empty());
    assert_eq!(context.render(), "");
    assert_eq!(context.total_bytes(), 0);
    assert_eq!(ProjectContext::default(), context);
}

#[test]
fn a_workspace_rule_is_labelled_with_its_file_and_its_scope() {
    let tree = Tree(vec![("/tree/AGENTS.md", Entry::File("USE TABS\n"))]);
    let context = tree.discover(&scope_at("/tree"));
    assert_eq!(context.sections().len(), 1);
    assert_eq!(context.sections()[0].kind, ContextScopeKind::Workspace);
    let rendered = context.render();
    assert!(rendered.contains("USE TABS"), "{rendered}");
    assert!(
        rendered.contains("<project-rules from=\"/tree/AGENTS.md\" scope=\"/tree\">"),
        "{rendered}"
    );
    assert!(rendered.contains(CONTEXT_GUIDANCE), "{rendered}");
}

#[test]
fn the_whole_rendering_is_the_guidance_the_sections_and_the_omissions() {
    let tree = Tree(vec![
        ("/AGENTS.md", Entry::File("OUTER")),
        ("/a/AGENTS.md", Entry::Folder),
        ("/a/b/AGENTS.md", Entry::File("  INNER \n")),
    ]);
    let context = tree.discover(&scope_at("/a/b"));
    assert_eq!(
        context.render(),
        format!(
            "<project-instructions-guidance>\n{CONTEXT_GUIDANCE}\n</project-instructions-guidance>\
             \n\n<ancestor-rules from=\"/AGENTS.md\" scope=\"/\">\nOUTER\n</ancestor-rules>\
             \n\n<project-rules from=\"/a/b/AGENTS.md\" scope=\"/a/b\">\nINNER\n</project-rules>\
             \n\n<project-rules-omitted from=\"/a/AGENTS.md\" reason=\"non-regular\" />"
        )
    );
    assert_eq!(context.total_bytes(), 10);
    assert_eq!(
        context.sources(),
        vec![&at("/AGENTS.md"), &at("/a/b/AGENTS.md")]
    );
}

#[test]
fn a_blank_or_missing_rule_file_contributes_nothing_and_is_not_an_omission() {
    let tree = Tree(vec![("/tree/AGENTS.md", Entry::File("   \n\t\n"))]);
    let context = tree.discover(&scope_at("/tree"));
    assert!(context.sections().is_empty());
    assert!(context.omissions().is_empty());
}

#[test]
fn a_target_outside_the_workspace_is_never_admitted() {
    let tree = Tree(vec![("/elsewhere/AGENTS.md", Entry::File("OUTSIDE\n"))]);
    let mut context = tree.discover(&scope_at("/tree"));
    assert_eq!(tree.reach_for(&mut context, "/elsewhere/a.rs"), None);
    // Nor by climbing out of the workspace with `..`.
    assert_eq!(tree.reach_for(&mut context, "../a.rs"), None);
    assert!(context.is_empty());
}

#[test]
fn a_target_that_does_not_exist_yet_still_admits_its_directory() {
    let tree = Tree(vec![("/tree/src/AGENTS.md", Entry::File("SRC RULE\n"))]);
    let mut context = tree.discover(&scope_at("/tree"));
    let delta = tree
        .reach_for(&mut context, "src/not-created-yet.rs")
        .expect("a write target admits its own scope");
    assert!(delta.contains("SRC RULE"), "{delta}");
    assert!(
        !delta.contains(CONTEXT_GUIDANCE),
        "an overlay does not repeat the guidance: {delta}"
    );
}

#[test]
fn a_second_target_in_the_same_directory_admits_nothing() {
    let tree = Tree(vec![
        ("/tree/src", Entry::Folder),
        ("/tree/src/AGENTS.md", Entry::File("SRC RULE\n")),
        ("/tree/src/deep/AGENTS.md", Entry::File("DEEP RULE\n")),
    ]);
    let mut context = tree.discover(&scope_at("/tree"));
    assert!(tree.reach_for(&mut context, "src").is_some());
    assert_eq!(tree.reach_for(&mut context, "src/a.rs"), None);
    // A narrower target brings its own rule and nothing that is there already.
    let delta = tree
        .reach_for(&mut context, "src/deep/a.rs")
        .expect("a rule of its own");
    assert_eq!(
        delta,
        "<scoped-rules from=\"/tree/src/deep/AGENTS.md\" scope=\"/tree/src/deep\">\nDEEP RULE\n</scoped-rules>"
    );
    assert_eq!(context.sections().len(), 2);
    assert_eq!(context.sections()[0].body, "SRC RULE");
}

#[test]
fn an_oversized_rule_is_omitted_rather_than_clipped() {
    let tree = Tree(vec![("/tree/AGENTS.md", Entry::Long(64))]);
    let limits = ContextLimits {
        max_file_bytes: 16,
        ..ContextLimits::default()
    };
    let context = tree.discover_with(&scope_at("/tree"), limits);
    assert!(context.sections().is_empty());
    assert_eq!(context.omissions()[0].reason, OmissionReason::Oversized);
    assert!(
        context.render().contains("reason=\"oversized\""),
        "{}",
        context.render()
    );
}

#[test]
fn a_total_cap_stops_delivery_and_says_so() {
    let tree = Tree(vec![
        ("/tree/AGENTS.md", Entry::File("aaaaaaaaaaaaaaaaaaaa")),
        ("/tree/src/AGENTS.md", Entry::File("bbbbbbbbbbbbbbbbbbbb")),
    ]);
    let limits = ContextLimits {
        max_total_bytes: 25,
        ..ContextLimits::default()
    };
    let mut context = tree.discover_with(&scope_at("/tree"), limits);
    tree.reach_for(&mut context, "src/main.rs");
    assert_eq!(context.sections().len(), 1);
    assert_eq!(context.omissions()[0].reason, OmissionReason::TotalCap);
    assert!(context.total_bytes() <= 25);
}

#[test]
fn a_selection_cap_stops_delivery_and_says_so() {
    let tree = Tree(vec![
        ("/tree/AGENTS.md", Entry::File("ONE\n")),
        ("/tree/src/AGENTS.md", Entry::File("TWO\n")),
    ]);
    let limits = ContextLimits {
        max_files: 1,
        ..ContextLimits::default()
    };
    let mut context = tree.discover_with(&scope_at("/tree"), limits);
    tree.reach_for(&mut context, "src/main.rs");
    assert_eq!(context.sections().len(), 1);
    assert_eq!(context.omissions()[0].reason, OmissionReason::SelectionCap);
}

#[test]
fn a_symlink_out_of_its_own_directory_is_refused() {
    let tree = Tree(vec![
        ("/tree/AGENTS.md", Entry::Link("/secrets/secret.md")),
        ("/secrets/secret.md", Entry::File("DO NOT READ ME")),
    ]);
    let context = tree.discover(&scope_at("/tree"));
    assert!(context.sections().is_empty());
    assert_eq!(context.omissions()[0].reason, OmissionReason::Symlink);
    assert!(!context.render().contains("DO NOT READ ME"));
}

#[test]
fn a_link_to_a_sibling_claude_file_is_read_because_the_project_asked() {
    let tree = Tree(vec![
        ("/tree/SHARED.md", Entry::File("SHARED RULE\n")),
        ("/tree/AGENTS.md", Entry::Link("/tree/SHARED.md")),
    ]);
    let context = tree.discover(&scope_at("/tree"));
    assert_eq!(context.sections().len(), 1);
    assert!(context.render().contains("SHARED RULE"));
    // Even then the provenance is the logical name that was looked for.
    assert!(
        context.render().contains("AGENTS.md\""),
        "{}",
        context.render()
    );
}

#[test]
fn a_directory_where_a_rule_file_belongs_is_omitted_as_non_regular() {
    let tree = Tree(vec![("/tree/AGENTS.md", Entry::Folder)]);
    let context = tree.discover(&scope_at("/tree"));
    assert_eq!(context.omissions()[0].reason, OmissionReason::NonRegular);
}

#[test]
fn a_rule_file_that_cannot_be_examined_or_read_is_omitted_as_unreadable() {
    let tree = Tree(vec![
        ("/AGENTS.md", Entry::Locked),
        ("/tree/AGENTS.md", Entry::Long(3)),
    ]);
    let context = tree.discover(&scope_at("/tree"));
    let reasons: Vec<OmissionReason> = context
        .omissions()
        .iter()
        .map(|omission| omission.reason)
        .collect();
    assert_eq!(
        reasons,
        vec![OmissionReason::Unreadable, OmissionReason::Unreadable]
    );
}

#[test]
fn every_reason_has_its_own_label() {
    for (reason, label) in [
        (OmissionReason::Oversized, "oversized"),
        (OmissionReason::Unreadable, "unreadable"),
        (OmissionReason::NonRegular, "non-regular"),
        (OmissionReason::Symlink, "symlink"),
        (OmissionReason::SelectionCap, "selection cap"),
        (OmissionReason::TotalCap, "total cap"),
    ] {
        assert_eq!(reason.label(), label);
    }
}

#[test]
fn an_attribute_cannot_close_the_element_it_sits_in() {
    assert_eq!(
        escape_attribute("a\"b<c>d&e\nf"),
        "a&quot;b&lt;c&gt;d&amp;e&#x0a;f"
    );
    assert_eq!(escape_attribute("/plain/path"), "/plain/path");
    assert_eq!(escape_attribute("\u{9f}\u{7f}\u{1b}"), "&#x9f;&#x7f;&#x1b;");
}

#[test]
fn normalization_resolves_dots_without_touching_the_disk() {
    assert_eq!(normalize(&at("/a/./b/../c")), at("/a/c"));
    assert_eq!(normalize(&at("/a/b/../..")), at("/"));
    assert_eq!(normalize(&at("/../a")), at("/a"));
    assert_eq!(normalize(&at("./../a")), at("a"));
}

#[test]
fn containment_is_component_wise() {
    assert!(path_inside(&at("/w"), &at("/w/src")));
    assert!(path_inside(&at("/w"), &at("/w")));
    assert!(!path_inside(&at("/w"), &at("/w-evil")));
}

#[test]
fn every_scope_kind_has_its_own_label() {
    let tags = [
        ContextScopeKind::Ancestor.tag(),
        ContextScopeKind::Workspace.tag(),
        ContextScopeKind::Nested.tag(),
    ];
    let mut unique = tags.to_vec();
    unique.sort_unstable();
    unique.dedup();
    assert_eq!(unique.len(), tags.len());
}

#[test]
fn a_directory_linked_out_of_the_workspace_admits_nothing() {
    let tree = Tree(vec![
        ("/tree/link", Entry::Link("/outside")),
        ("/outside", Entry::Folder),
        ("/outside/AGENTS.md", Entry::File("NOT OURS\n")),
        ("/outside/deep/AGENTS.md", Entry::File("NOR THIS\n")),
    ]);
    let mut context = tree.discover(&scope_at("/tree"));
    assert_eq!(tree.reach_for(&mut context, "link/a.rs"), None);
    assert_eq!(tree.reach_for(&mut context, "link/deep/a.rs"), None);
    assert!(context.sections().is_empty());
    let refused: Vec<(&Location, OmissionReason)> = context
        .omissions()
        .iter()
        .map(|omission| (&omission.source, omission.reason))
        .collect();
    assert_eq!(
        refused,
        vec![
            (&at("/tree/link/AGENTS.md"), OmissionReason::Symlink),
            (&at("/tree/link/deep/AGENTS.md"), OmissionReason::Symlink),
        ]
    );
    assert!(!context.render().contains("NOT OURS"));
}

#[test]
fn a_directory_linked_inside_the_workspace_is_read_where_it_is() {
    let tree = Tree(vec![
        ("/tree/link", Entry::Link("/tree/real")),
        ("/tree/real/AGENTS.md", Entry::File("OURS\n")),
    ]);
    let mut context = tree.discover(&scope_at("/tree"));
    let delta = tree
        .reach_for(&mut context, "link/a.rs")
        .expect("a rule of the workspace");
    assert!(delta.contains("OURS"), "{delta}");
    assert_eq!(context.sections()[0].source, at("/tree/link/AGENTS.md"));
}

#[test]
fn a_nested_rule_linked_out_of_its_directory_is_refused() {
    let tree = Tree(vec![
        ("/tree/src/AGENTS.md", Entry::Link("/tree/other/SHARED.md")),
        ("/tree/other/SHARED.md", Entry::File("ELSEWHERE\n")),
    ]);
    let mut context = tree.discover(&scope_at("/tree"));
    assert_eq!(tree.reach_for(&mut context, "src/a.rs"), None);
    assert_eq!(context.omissions()[0].reason, OmissionReason::Symlink);
}

#[test]
fn a_nested_rule_that_no_link_leads_to_is_read_at_its_path() {
    let context = ProjectContext::discover(
        &scope_at("/tree"),
        vec![RuleLoad::Missing, RuleLoad::Missing],
    );
    let path = || at("/tree/a/b/AGENTS.md");
    let way = |directory: &str| Ask::Way {
        directory: at(directory),
        path: path(),
        root: at("/tree"),
    };
    for seen in [Sighting::Other, Sighting::Missing, Sighting::Failed] {
        let ask = context.load_nested(&at("/tree/a/b"));
        assert_eq!(
            ask,
            Ask::Link {
                path: path(),
                within: Some(at("/tree")),
            }
        );
        let ask = ask.next(64, Answer::Link(Sighting::Other));
        assert_eq!(ask, way("/tree/a"));
        let ask = ask.next(64, Answer::Link(seen));
        assert_eq!(ask, way("/tree/a/b"));
        // Nobody is asked where the file really is.
        let ask = ask.next(64, Answer::Link(seen));
        assert_eq!(ask, Ask::Stat { target: path() });
        let ask = ask.next(64, Answer::Stat(Stat::File { len: 3 }));
        assert_eq!(
            ask.next(64, Answer::Text(Some("ALL".to_string()))),
            Ask::Done {
                load: RuleLoad::Body {
                    body: "ALL".to_string(),
                    from: path(),
                }
            }
        );
    }
}

#[test]
fn a_nested_rule_behind_a_link_that_leads_nowhere_known_is_refused() {
    let context = ProjectContext::discover(
        &scope_at("/tree"),
        vec![RuleLoad::Missing, RuleLoad::Missing],
    );
    let path = at("/tree/a/b/AGENTS.md");
    let ask = context
        .load_nested(&at("/tree/a/b"))
        .next(64, Answer::Link(Sighting::Other))
        .next(64, Answer::Link(Sighting::Symlink));
    assert_eq!(
        ask,
        Ask::Resolve {
            parent: at("/tree/a/b"),
            path,
            within: Some(at("/tree")),
        }
    );
    assert_eq!(
        ask.next(64, Answer::Resolved(None)),
        Ask::Done {
            load: RuleLoad::Omitted(OmissionReason::Symlink)
        }
    );
}

#[test]
fn a_nested_rule_outside_the_workspace_is_resolved_before_it_is_read() {
    let context = ProjectContext::discover(
        &scope_at("/tree"),
        vec![RuleLoad::Missing, RuleLoad::Missing],
    );
    let ask = context
        .load_nested(&at("/elsewhere"))
        .next(64, Answer::Link(Sighting::Other));
    assert_eq!(
        ask.next(
            64,
            Answer::Resolved(Some((at("/elsewhere"), at("/elsewhere/AGENTS.md"))))
        ),
        Ask::Done {
            load: RuleLoad::Omitted(OmissionReason::Symlink)
        }
    );
}

#[test]
fn a_file_that_grew_behind_its_measure_is_oversized() {
    let ask = Ask::Read {
        target: at("/tree/AGENTS.md"),
    };
    assert_eq!(
        ask.clone().next(4, Answer::Text(Some("12345".to_string()))),
        Ask::Done {
            load: RuleLoad::Omitted(OmissionReason::Oversized)
        }
    );
    assert_eq!(
        ask.next(4, Answer::Text(Some(" 12 ".to_string()))),
        Ask::Done {
            load: RuleLoad::Body {
                body: "12".to_string(),
                from: at("/tree/AGENTS.md"),
            }
        }
    );
}

#[test]
fn what_is_delivered_is_trimmed_bounded_and_of_its_own_directory() {
    let said = |body: &str, from: &str| RuleLoad::Body {
        body: body.to_string(),
        from: at(from),
    };
    let limits = ContextLimits {
        max_file_bytes: 4,
        ..ContextLimits::default()
    };
    let context = ProjectContext::discover_with(
        &scope_at("/a/b"),
        limits,
        vec![
            said(" \n12\t", "/AGENTS.md"),
            said("12345", "/a/AGENTS.md"),
            said("out", "/elsewhere/AGENTS.md"),
        ],
    );
    assert_eq!(context.limits(), limits);
    assert_eq!(context.sections().len(), 1);
    assert_eq!(context.sections()[0].body, "12");
    assert_eq!(context.total_bytes(), 2);
    let reasons: Vec<OmissionReason> = context
        .omissions()
        .iter()
        .map(|omission| omission.reason)
        .collect();
    assert_eq!(
        reasons,
        vec![OmissionReason::Oversized, OmissionReason::Symlink]
    );
    let blank = ProjectContext::discover(&scope_at("/"), vec![said(" \n", "/AGENTS.md")]);
    assert!(blank.is_empty());
}

#[test]
fn a_source_is_delivered_or_refused_once_and_never_both() {
    let tree = Tree(vec![
        ("/tree", Entry::Folder),
        ("/tree/AGENTS.md", Entry::File("ROOT")),
        ("/tree/a/AGENTS.md", Entry::Folder),
        ("/tree/a/b/AGENTS.md", Entry::File("DEEP")),
    ]);
    let mut context = tree.discover(&scope_at("/tree"));
    let first = tree.reach_for(&mut context, "a/b/x.rs");
    assert!(first.is_some());
    assert_eq!(tree.reach_for(&mut context, "a/y.rs"), None);
    assert_eq!(tree.reach_for(&mut context, "z.rs"), None);
    let sources: Vec<Location> = context
        .sections()
        .iter()
        .map(|section| section.source.clone())
        .chain(context.omissions().iter().map(|omission| omission.source.clone()))
        .collect();
    assert_eq!(
        sources,
        vec![
            at("/tree/AGENTS.md"),
            at("/tree/a/b/AGENTS.md"),
            at("/tree/a/AGENTS.md"),
        ]
    );
}
