//! The inventory of Everything features and how far each is implemented.
use vstd::prelude::*;

use crate::text::{chars_of, contains_chars, is_substring, lowercase, to_lowercase};

verus! {

/// How far a feature is implemented.
#[derive(Debug, Clone, Copy, PartialEq, Eq, Structural)]
pub enum FeatureStatus {
    Implemented,
    Partial,
    Planned,
    WindowsSpecific,
}

pub open spec fn status_text(status: FeatureStatus) -> Seq<char> {
    match status {
        FeatureStatus::Implemented => "Implemented"@,
        FeatureStatus::Partial => "Partial"@,
        FeatureStatus::Planned => "Planned"@,
        FeatureStatus::WindowsSpecific => "Windows-specific"@,
    }
}

impl FeatureStatus {
    /// The label shown for a status.
    pub fn label(self) -> (text: &'static str)
        ensures
            text@ == status_text(self),
    {
        match self {
            FeatureStatus::Implemented => "Implemented",
            FeatureStatus::Partial => "Partial",
            FeatureStatus::Planned => "Planned",
            FeatureStatus::WindowsSpecific => "Windows-specific",
        }
    }
}

/// One entry of the feature inventory.
#[derive(Debug, Clone, Copy)]
pub struct Feature {
    pub category: &'static str,
    pub name: &'static str,
    pub description: &'static str,
    pub status: FeatureStatus,
}

/// The mathematical content of a `Feature`.
pub struct FeatureView {
    pub category: Seq<char>,
    pub name: Seq<char>,
    pub description: Seq<char>,
    pub status: FeatureStatus,
}

impl View for Feature {
    type V = FeatureView;

    open spec fn view(&self) -> FeatureView {
        FeatureView {
            category: self.category@,
            name: self.name@,
            description: self.description@,
            status: self.status,
        }
    }
}

pub open spec fn features_view(features: Seq<Feature>) -> Seq<FeatureView> {
    features.map_values(|f: Feature| f@)
}

/// The inventory, in display order.
pub open spec fn feature_table() -> Seq<FeatureView> {
    seq![
        FeatureView {
            category: "Core"@,
            name: "Instant filename search"@,
            description: "Search a persistent filename and folder-name index as text is entered."@,
            status: FeatureStatus::Implemented,
        },
        FeatureView {
            category: "Core"@,
            name: "Fast indexing and startup"@,
            description: "Build, persist, and reopen a compact index without reading file contents."@,
            status: FeatureStatus::Partial,
        },
        FeatureView {
            category: "Core"@,
            name: "Real-time index updates"@,
            description: "Reflect creates, deletes, moves, and renames through filesystem notifications."@,
            status: FeatureStatus::Implemented,
        },
        FeatureView {
            category: "Core"@,
            name: "Offline and private operation"@,
            description: "Run locally without analytics, remote calls, or user-data collection."@,
            status: FeatureStatus::Implemented,
        },
        FeatureView {
            category: "Search"@,
            name: "Substring and case-insensitive search"@,
            description: "Match partial filenames immediately with an FTS trigram index."@,
            status: FeatureStatus::Implemented,
        },
        FeatureView {
            category: "Search"@,
            name: "Full-path matching"@,
            description: "Match explicit path: terms or apply ordinary terms to full paths with the Search menu toggle."@,
            status: FeatureStatus::Implemented,
        },
        FeatureView {
            category: "Search"@,
            name: "Boolean operators and grouping"@,
            description: "AND, OR, NOT, grouping, quoted text, and operator precedence."@,
            status: FeatureStatus::Planned,
        },
        FeatureView {
            category: "Search"@,
            name: "Wildcards and character entities"@,
            description: "Whole-name * and ? wildcard patterns are implemented; literal character entities remain planned."@,
            status: FeatureStatus::Partial,
        },
        FeatureView {
            category: "Search"@,
            name: "Search modifiers"@,
            description: "Case, diacritics, whole-word, path, prefix, suffix, punctuation, whitespace, and regex modifiers."@,
            status: FeatureStatus::Planned,
        },
        FeatureView {
            category: "Search"@,
            name: "Regular expressions"@,
            description: "Regex mode and regex terms within otherwise normal searches."@,
            status: FeatureStatus::Planned,
        },
        FeatureView {
            category: "Search"@,
            name: "Property search functions"@,
            description: "Name, path, extension, type, size, dates, attributes, owner, hashes, media properties, parent/child, and other metadata functions."@,
            status: FeatureStatus::Planned,
        },
        FeatureView {
            category: "Search"@,
            name: "Content search/indexing"@,
            description: "Optional text-content matching, separate from the default filename-only index."@,
            status: FeatureStatus::Planned,
        },
        FeatureView {
            category: "Search"@,
            name: "Filters and macros"@,
            description: "Built-in Audio, Document, Executable, Image, Video, and Archive filters plus custom saved macros."@,
            status: FeatureStatus::Partial,
        },
        FeatureView {
            category: "Search"@,
            name: "Advanced Search dialog"@,
            description: "Build complex searches without memorizing query syntax."@,
            status: FeatureStatus::Planned,
        },
        FeatureView {
            category: "Search"@,
            name: "Duplicate, distinct, and unique search"@,
            description: "Group duplicate names, sizes, dates, properties, or content hashes."@,
            status: FeatureStatus::Planned,
        },
        FeatureView {
            category: "Results"@,
            name: "Details result list"@,
            description: "Name, path, size, type, and date-modified columns with row selection."@,
            status: FeatureStatus::Implemented,
        },
        FeatureView {
            category: "Results"@,
            name: "Column sorting and visibility"@,
            description: "Sort ascending/descending and show, hide, resize, or reorder columns."@,
            status: FeatureStatus::Partial,
        },
        FeatureView {
            category: "Results"@,
            name: "Open and reveal results"@,
            description: "Open a result or reveal its containing folder with the desktop file manager."@,
            status: FeatureStatus::Implemented,
        },
        FeatureView {
            category: "Results"@,
            name: "Clipboard and export"@,
            description: "Copy paths and export current results to CSV or text/file-list formats."@,
            status: FeatureStatus::Partial,
        },
        FeatureView {
            category: "Results"@,
            name: "File operations and properties"@,
            description: "Cut, copy, delete, rename, multi-rename, properties, drag-and-drop, and undo history."@,
            status: FeatureStatus::Planned,
        },
        FeatureView {
            category: "Results"@,
            name: "Preview pane and thumbnails"@,
            description: "Preview supported files and switch between details and thumbnail views."@,
            status: FeatureStatus::Planned,
        },
        FeatureView {
            category: "Results"@,
            name: "Jump-to and highlighted matches"@,
            description: "Keyboard jump-to, highlighted terms, mouseover rows, and selection status."@,
            status: FeatureStatus::Planned,
        },
        FeatureView {
            category: "Workspace"@,
            name: "Windows and search tabs"@,
            description: "Multiple windows, tabs, recently closed tabs, and session restore."@,
            status: FeatureStatus::Planned,
        },
        FeatureView {
            category: "Workspace"@,
            name: "Folder, filter, and bookmark sidebars"@,
            description: "Browse indexed roots and organize reusable searches from side panels."@,
            status: FeatureStatus::Planned,
        },
        FeatureView {
            category: "Workspace"@,
            name: "Bookmarks and home search"@,
            description: "Save search text, options, filter, columns, sort, view, and index selection."@,
            status: FeatureStatus::Planned,
        },
        FeatureView {
            category: "Workspace"@,
            name: "Search and run history"@,
            description: "Recall searches, track launches, rank frequently opened items, and manage retention."@,
            status: FeatureStatus::Planned,
        },
        FeatureView {
            category: "Indexing"@,
            name: "Linux/ext4 folder indexes"@,
            description: "Add selected roots, preserve raw Linux names, and reconcile persistent SQLite indexes."@,
            status: FeatureStatus::Implemented,
        },
        FeatureView {
            category: "Indexing"@,
            name: "inotify/fanotify monitoring"@,
            description: "Use recursive inotify changes now, with fanotify and overflow reconciliation as the privileged future backend."@,
            status: FeatureStatus::Partial,
        },
        FeatureView {
            category: "Indexing"@,
            name: "Index journal and recent changes"@,
            description: "Record index mutations and expose a searchable recent-change view."@,
            status: FeatureStatus::Planned,
        },
        FeatureView {
            category: "Indexing"@,
            name: "Include/exclude rules"@,
            description: "Exclude roots, files, wildcards, regexes, hidden entries, and selected metadata."@,
            status: FeatureStatus::Planned,
        },
        FeatureView {
            category: "Indexing"@,
            name: "Property indexes and fast sorts"@,
            description: "Optional size/date/attributes/property indexes with memory-cost controls."@,
            status: FeatureStatus::Partial,
        },
        FeatureView {
            category: "Indexing"@,
            name: "Offline file lists"@,
            description: "Create and search snapshots for removable media, optical media, and offline trees."@,
            status: FeatureStatus::Planned,
        },
        FeatureView {
            category: "Indexing"@,
            name: "Network folders and remote indexes"@,
            description: "Index NAS shares or query synchronized indexes hosted by another machine."@,
            status: FeatureStatus::Planned,
        },
        FeatureView {
            category: "Indexing"@,
            name: "NTFS/ReFS USN journal"@,
            description: "Windows volume metadata and durable USN Journal integration."@,
            status: FeatureStatus::WindowsSpecific,
        },
        FeatureView {
            category: "Integration"@,
            name: "Command-line interface"@,
            description: "Initialize, index, search, inspect status, and emit JSON from scripts."@,
            status: FeatureStatus::Implemented,
        },
        FeatureView {
            category: "Integration"@,
            name: "Background service"@,
            description: "A persistent per-user daemon serving CLI and GUI clients."@,
            status: FeatureStatus::Planned,
        },
        FeatureView {
            category: "Integration"@,
            name: "HTTP, ETP, and index server"@,
            description: "Remote search protocols, browser access, and shared indexes."@,
            status: FeatureStatus::Planned,
        },
        FeatureView {
            category: "Integration"@,
            name: "SDK, IPC, and URL protocol"@,
            description: "Stable APIs for clients, shell integration, and search URLs."@,
            status: FeatureStatus::Planned,
        },
        FeatureView {
            category: "Integration"@,
            name: "Plugins"@,
            description: "Extend indexed properties, previews, search behavior, or result actions."@,
            status: FeatureStatus::Planned,
        },
        FeatureView {
            category: "Integration"@,
            name: "Multiple named instances"@,
            description: "Independent configurations, databases, services, and windows."@,
            status: FeatureStatus::Planned,
        },
        FeatureView {
            category: "Customization"@,
            name: "Light and dark themes"@,
            description: "Switch the complete search window between native light and dark visuals."@,
            status: FeatureStatus::Implemented,
        },
        FeatureView {
            category: "Customization"@,
            name: "Fonts, colors, scale, and layout"@,
            description: "Customize result fonts, state colors, row styling, panes, and UI scale."@,
            status: FeatureStatus::Partial,
        },
        FeatureView {
            category: "Customization"@,
            name: "Keyboard shortcuts and global hotkeys"@,
            description: "Configurable commands by global, search-box, and result-list context."@,
            status: FeatureStatus::Partial,
        },
        FeatureView {
            category: "Customization"@,
            name: "Context-menu commands and external file manager"@,
            description: "Configure which result actions appear and the commands they invoke."@,
            status: FeatureStatus::Partial,
        },
        FeatureView {
            category: "Customization"@,
            name: "Settings import/export and advanced settings"@,
            description: "Back up, restore, reset, search, and override configuration values."@,
            status: FeatureStatus::Planned,
        },
        FeatureView {
            category: "Customization"@,
            name: "Languages and translation"@,
            description: "Localized UI resources and a translation workflow."@,
            status: FeatureStatus::Planned,
        },
        FeatureView {
            category: "Desktop"@,
            name: "Tray, startup, and background behavior"@,
            description: "Tray controls, launch-at-login, desktop integration, and global show/toggle hotkeys."@,
            status: FeatureStatus::Planned,
        },
        FeatureView {
            category: "Support"@,
            name: "Diagnostics and troubleshooting"@,
            description: "Observable health, freshness, scan progress, watcher lag, privacy-safe reports, and recovery actions."@,
            status: FeatureStatus::Partial,
        },
    ]
}

/// The inventory of Everything features, grouped by category.
pub fn everything_features() -> (features: Vec<Feature>)
    ensures
        features_view(features@) == feature_table(),
{
    let mut features: Vec<Feature> = Vec::new();
    features.push(Feature {
        category: "Core",
        name: "Instant filename search",
        description: "Search a persistent filename and folder-name index as text is entered.",
        status: FeatureStatus::Implemented,
    });
    features.push(Feature {
        category: "Core",
        name: "Fast indexing and startup",
        description: "Build, persist, and reopen a compact index without reading file contents.",
        status: FeatureStatus::Partial,
    });
    features.push(Feature {
        category: "Core",
        name: "Real-time index updates",
        description: "Reflect creates, deletes, moves, and renames through filesystem notifications.",
        status: FeatureStatus::Implemented,
    });
    features.push(Feature {
        category: "Core",
        name: "Offline and private operation",
        description: "Run locally without analytics, remote calls, or user-data collection.",
        status: FeatureStatus::Implemented,
    });
    features.push(Feature {
        category: "Search",
        name: "Substring and case-insensitive search",
        description: "Match partial filenames immediately with an FTS trigram index.",
        status: FeatureStatus::Implemented,
    });
    features.push(Feature {
        category: "Search",
        name: "Full-path matching",
        description: "Match explicit path: terms or apply ordinary terms to full paths with the Search menu toggle.",
        status: FeatureStatus::Implemented,
    });
    features.push(Feature {
        category: "Search",
        name: "Boolean operators and grouping",
        description: "AND, OR, NOT, grouping, quoted text, and operator precedence.",
        status: FeatureStatus::Planned,
    });
    features.push(Feature {
        category: "Search",
        name: "Wildcards and character entities",
        description: "Whole-name * and ? wildcard patterns are implemented; literal character entities remain planned.",
        status: FeatureStatus::Partial,
    });
    features.push(Feature {
        category: "Search",
        name: "Search modifiers",
        description: "Case, diacritics, whole-word, path, prefix, suffix, punctuation, whitespace, and regex modifiers.",
        status: FeatureStatus::Planned,
    });
    features.push(Feature {
        category: "Search",
        name: "Regular expressions",
        description: "Regex mode and regex terms within otherwise normal searches.",
        status: FeatureStatus::Planned,
    });
    features.push(Feature {
        category: "Search",
        name: "Property search functions",
        description: "Name, path, extension, type, size, dates, attributes, owner, hashes, media properties, parent/child, and other metadata functions.",
        status: FeatureStatus::Planned,
    });
    features.push(Feature {
        category: "Search",
        name: "Content search/indexing",
        description: "Optional text-content matching, separate from the default filename-only index.",
        status: FeatureStatus::Planned,
    });
    features.push(Feature {
        category: "Search",
        name: "Filters and macros",
        description: "Built-in Audio, Document, Executable, Image, Video, and Archive filters plus custom saved macros.",
        status: FeatureStatus::Partial,
    });
    features.push(Feature {
        category: "Search",
        name: "Advanced Search dialog",
        description: "Build complex searches without memorizing query syntax.",
        status: FeatureStatus::Planned,
    });
    features.push(Feature {
        category: "Search",
        name: "Duplicate, distinct, and unique search",
        description: "Group duplicate names, sizes, dates, properties, or content hashes.",
        status: FeatureStatus::Planned,
    });
    features.push(Feature {
        category: "Results",
        name: "Details result list",
        description: "Name, path, size, type, and date-modified columns with row selection.",
        status: FeatureStatus::Implemented,
    });
    features.push(Feature {
        category: "Results",
        name: "Column sorting and visibility",
        description: "Sort ascending/descending and show, hide, resize, or reorder columns.",
        status: FeatureStatus::Partial,
    });
    features.push(Feature {
        category: "Results",
        name: "Open and reveal results",
        description: "Open a result or reveal its containing folder with the desktop file manager.",
        status: FeatureStatus::Implemented,
    });
    features.push(Feature {
        category: "Results",
        name: "Clipboard and export",
        description: "Copy paths and export current results to CSV or text/file-list formats.",
        status: FeatureStatus::Partial,
    });
    features.push(Feature {
        category: "Results",
        name: "File operations and properties",
        description: "Cut, copy, delete, rename, multi-rename, properties, drag-and-drop, and undo history.",
        status: FeatureStatus::Planned,
    });
    features.push(Feature {
        category: "Results",
        name: "Preview pane and thumbnails",
        description: "Preview supported files and switch between details and thumbnail views.",
        status: FeatureStatus::Planned,
    });
    features.push(Feature {
        category: "Results",
        name: "Jump-to and highlighted matches",
        description: "Keyboard jump-to, highlighted terms, mouseover rows, and selection status.",
        status: FeatureStatus::Planned,
    });
    features.push(Feature {
        category: "Workspace",
        name: "Windows and search tabs",
        description: "Multiple windows, tabs, recently closed tabs, and session restore.",
        status: FeatureStatus::Planned,
    });
    features.push(Feature {
        category: "Workspace",
        name: "Folder, filter, and bookmark sidebars",
        description: "Browse indexed roots and organize reusable searches from side panels.",
        status: FeatureStatus::Planned,
    });
    features.push(Feature {
        category: "Workspace",
        name: "Bookmarks and home search",
        description: "Save search text, options, filter, columns, sort, view, and index selection.",
        status: FeatureStatus::Planned,
    });
    features.push(Feature {
        category: "Workspace",
        name: "Search and run history",
        description: "Recall searches, track launches, rank frequently opened items, and manage retention.",
        status: FeatureStatus::Planned,
    });
    features.push(Feature {
        category: "Indexing",
        name: "Linux/ext4 folder indexes",
        description: "Add selected roots, preserve raw Linux names, and reconcile persistent SQLite indexes.",
        status: FeatureStatus::Implemented,
    });
    features.push(Feature {
        category: "Indexing",
        name: "inotify/fanotify monitoring",
        description: "Use recursive inotify changes now, with fanotify and overflow reconciliation as the privileged future backend.",
        status: FeatureStatus::Partial,
    });
    features.push(Feature {
        category: "Indexing",
        name: "Index journal and recent changes",
        description: "Record index mutations and expose a searchable recent-change view.",
        status: FeatureStatus::Planned,
    });
    features.push(Feature {
        category: "Indexing",
        name: "Include/exclude rules",
        description: "Exclude roots, files, wildcards, regexes, hidden entries, and selected metadata.",
        status: FeatureStatus::Planned,
    });
    features.push(Feature {
        category: "Indexing",
        name: "Property indexes and fast sorts",
        description: "Optional size/date/attributes/property indexes with memory-cost controls.",
        status: FeatureStatus::Partial,
    });
    features.push(Feature {
        category: "Indexing",
        name: "Offline file lists",
        description: "Create and search snapshots for removable media, optical media, and offline trees.",
        status: FeatureStatus::Planned,
    });
    features.push(Feature {
        category: "Indexing",
        name: "Network folders and remote indexes",
        description: "Index NAS shares or query synchronized indexes hosted by another machine.",
        status: FeatureStatus::Planned,
    });
    features.push(Feature {
        category: "Indexing",
        name: "NTFS/ReFS USN journal",
        description: "Windows volume metadata and durable USN Journal integration.",
        status: FeatureStatus::WindowsSpecific,
    });
    features.push(Feature {
        category: "Integration",
        name: "Command-line interface",
        description: "Initialize, index, search, inspect status, and emit JSON from scripts.",
        status: FeatureStatus::Implemented,
    });
    features.push(Feature {
        category: "Integration",
        name: "Background service",
        description: "A persistent per-user daemon serving CLI and GUI clients.",
        status: FeatureStatus::Planned,
    });
    features.push(Feature {
        category: "Integration",
        name: "HTTP, ETP, and index server",
        description: "Remote search protocols, browser access, and shared indexes.",
        status: FeatureStatus::Planned,
    });
    features.push(Feature {
        category: "Integration",
        name: "SDK, IPC, and URL protocol",
        description: "Stable APIs for clients, shell integration, and search URLs.",
        status: FeatureStatus::Planned,
    });
    features.push(Feature {
        category: "Integration",
        name: "Plugins",
        description: "Extend indexed properties, previews, search behavior, or result actions.",
        status: FeatureStatus::Planned,
    });
    features.push(Feature {
        category: "Integration",
        name: "Multiple named instances",
        description: "Independent configurations, databases, services, and windows.",
        status: FeatureStatus::Planned,
    });
    features.push(Feature {
        category: "Customization",
        name: "Light and dark themes",
        description: "Switch the complete search window between native light and dark visuals.",
        status: FeatureStatus::Implemented,
    });
    features.push(Feature {
        category: "Customization",
        name: "Fonts, colors, scale, and layout",
        description: "Customize result fonts, state colors, row styling, panes, and UI scale.",
        status: FeatureStatus::Partial,
    });
    features.push(Feature {
        category: "Customization",
        name: "Keyboard shortcuts and global hotkeys",
        description: "Configurable commands by global, search-box, and result-list context.",
        status: FeatureStatus::Partial,
    });
    features.push(Feature {
        category: "Customization",
        name: "Context-menu commands and external file manager",
        description: "Configure which result actions appear and the commands they invoke.",
        status: FeatureStatus::Partial,
    });
    features.push(Feature {
        category: "Customization",
        name: "Settings import/export and advanced settings",
        description: "Back up, restore, reset, search, and override configuration values.",
        status: FeatureStatus::Planned,
    });
    features.push(Feature {
        category: "Customization",
        name: "Languages and translation",
        description: "Localized UI resources and a translation workflow.",
        status: FeatureStatus::Planned,
    });
    features.push(Feature {
        category: "Desktop",
        name: "Tray, startup, and background behavior",
        description: "Tray controls, launch-at-login, desktop integration, and global show/toggle hotkeys.",
        status: FeatureStatus::Planned,
    });
    features.push(Feature {
        category: "Support",
        name: "Diagnostics and troubleshooting",
        description: "Observable health, freshness, scan progress, watcher lag, privacy-safe reports, and recovery actions.",
        status: FeatureStatus::Partial,
    });
    assert(features_view(features@) =~= feature_table());
    features
}

/// A feature is shown for a lower-cased needle when the needle is empty or
/// occurs in its lower-cased name, category or description.
pub open spec fn feature_matches(f: FeatureView, needle: Seq<char>) -> bool {
    needle.len() == 0 || is_substring(needle, lowercase(f.name)) || is_substring(
        needle,
        lowercase(f.category),
    ) || is_substring(needle, lowercase(f.description))
}

pub open spec fn filtered_features(features: Seq<FeatureView>, needle: Seq<char>) -> Seq<FeatureView>
    decreases features.len(),
{
    if features.len() == 0 {
        Seq::empty()
    } else if feature_matches(features.last(), needle) {
        filtered_features(features.drop_last(), needle).push(features.last())
    } else {
        filtered_features(features.drop_last(), needle)
    }
}

fn lowered_contains(text: &str, needle: &Vec<char>) -> (r: bool)
    ensures
        r == is_substring(needle@, lowercase(text@)),
{
    let lowered = to_lowercase(text);
    contains_chars(&chars_of(lowered.as_str()), needle)
}

/// The features shown for an already lower-cased needle, in inventory order.
pub fn matching_features(features: &[Feature], needle: &str) -> (out: Vec<Feature>)
    ensures
        features_view(out@) == filtered_features(features_view(features@), needle@),
{
    let needle_chars = chars_of(needle);
    let ghost fv = features_view(features@);
    let mut out: Vec<Feature> = Vec::new();
    let mut i: usize = 0;
    while i < features.len()
        invariant
            i <= features@.len(),
            needle_chars@ == needle@,
            fv == features_view(features@),
            features_view(out@) == filtered_features(fv.take(i as int), needle@),
        decreases features.len() - i,
    {
        let f = features[i];
        assert(fv.take(i + 1).drop_last() =~= fv.take(i as int));
        assert(fv.take(i + 1).last() == f@);
        let shown = needle_chars.len() == 0 || lowered_contains(f.name, &needle_chars)
            || lowered_contains(f.category, &needle_chars) || lowered_contains(
            f.description,
            &needle_chars,
        );
        let ghost before = features_view(out@);
        if shown {
            out.push(f);
            assert(features_view(out@) =~= before.push(f@));
        }
        i = i + 1;
    }
    assert(fv.take(features@.len() as int) =~= fv);
    out
}

/// The features shown for a search text: the text is lower-cased first.
pub fn filter_features(features: &[Feature], query: &str) -> (out: Vec<Feature>)
    ensures
        features_view(out@) == filtered_features(features_view(features@), lowercase(query@)),
{
    let needle = to_lowercase(query);
    matching_features(features, needle.as_str())
}

} // verus!
