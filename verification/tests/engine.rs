use scaffold::ComplexFile;
use scaffold::ComplexItem;
use scaffold::CustomScripts;
use scaffold::DirectoryItem;
use scaffold::FeatureValue;
use scaffold::FileItem;
use scaffold::FsTree;
use scaffold::ProjectConfig;
use scaffold::ProjectGenerator;
use scaffold::ProjectMeta;
use scaffold::Status;

fn demo_config() -> ProjectConfig {
    ProjectConfig {
        project: ProjectMeta {
            name: "demo".to_string(),
            project_type: Some("app".to_string()),
            description: None,
        },
        features: vec![("lang".to_string(), FeatureValue::Str("rust".to_string()))],
        directories: vec![
            DirectoryItem::Simple("src".to_string()),
            DirectoryItem::Complex(ComplexItem {
                path: "docs".to_string(),
                condition: Some("$LANG == 'go'".to_string()),
            }),
        ],
        files: vec![FileItem::Complex(ComplexFile {
            path: "README.md".to_string(),
            content: Some("hello".to_string()),
            condition: None,
        })],
        custom_scripts: CustomScripts { post_create: vec![] },
    }
}

#[test]
fn end_to_end_demo_scenario() {
    let mut generator = ProjectGenerator::new(demo_config());
    let mut tree = FsTree::new();
    let (stats, events) = generator.generate(None, &mut tree);

    assert_eq!(stats.project_name, "demo");
    assert_eq!(stats.output_dir, "demo");
    assert_eq!(stats.dirs_count, 1);
    assert_eq!(stats.files_count, 1);
    assert_eq!(stats.skipped_count, 1);
    assert!(stats.scripts_to_run.is_none());

    assert!(tree.is_dir(&"demo/src".to_string()));
    assert!(!tree.contains_path(&"demo/docs".to_string()));
    assert_eq!(
        tree.file_content(&"demo/README.md".to_string()),
        Some(&"hello".to_string())
    );

    assert_eq!(events.len(), 3);
    assert_eq!(events[0].label, "Create Dir");
    assert_eq!(events[0].path, "src");
    assert_eq!(events[0].index, 1);
    assert_eq!(events[0].total, 3);
    assert!(matches!(events[0].status, Status::Success));
    assert_eq!(events[1].label, "Skip Dir");
    assert!(matches!(events[1].status, Status::Skip));
    assert_eq!(events[2].label, "Create File");
}

#[test]
fn second_run_skips_everything() {
    let mut tree = FsTree::new();
    let mut first = ProjectGenerator::new(demo_config());
    let (stats1, _) = first.generate(None, &mut tree);
    assert_eq!(stats1.dirs_count, 1);

    let mut second = ProjectGenerator::new(demo_config());
    let (stats2, events2) = second.generate(None, &mut tree);
    assert_eq!(stats2.dirs_count, 0);
    assert_eq!(stats2.files_count, 0);
    assert_eq!(stats2.skipped_count, 3);
    assert_eq!(events2[0].label, "Exists Dir");
    assert_eq!(events2[2].label, "Exists File");
    assert_eq!(
        tree.file_content(&"demo/README.md".to_string()),
        Some(&"hello".to_string())
    );
}

#[test]
fn directory_entry_is_processed_before_file_entry() {
    let config = ProjectConfig {
        project: ProjectMeta {
            name: "demo".to_string(),
            project_type: None,
            description: None,
        },
        features: vec![],
        directories: vec![DirectoryItem::Simple("src".to_string())],
        files: vec![FileItem::Simple("src/main.txt".to_string())],
        custom_scripts: CustomScripts { post_create: vec![] },
    };
    let mut generator = ProjectGenerator::new(config);
    let mut tree = FsTree::new();
    let (stats, events) = generator.generate(None, &mut tree);

    assert_eq!(events[0].path, "src");
    assert_eq!(events[0].label, "Create Dir");
    assert_eq!(events[1].path, "src/main.txt");
    assert_eq!(events[1].label, "Create File");
    assert_eq!(stats.dirs_count, 1);
    assert_eq!(stats.files_count, 1);
    assert_eq!(stats.skipped_count, 0);
    assert!(tree.is_dir(&"demo/src".to_string()));
    assert_eq!(
        tree.file_content(&"demo/src/main.txt".to_string()),
        Some(&"".to_string())
    );
}

#[test]
fn file_parent_chain_is_created_when_undeclared() {
    let config = ProjectConfig {
        project: ProjectMeta {
            name: "demo".to_string(),
            project_type: None,
            description: None,
        },
        features: vec![],
        directories: vec![],
        files: vec![FileItem::Simple("a/b/c.txt".to_string())],
        custom_scripts: CustomScripts { post_create: vec![] },
    };
    let mut generator = ProjectGenerator::new(config);
    let mut tree = FsTree::new();
    let (stats, _) = generator.generate(None, &mut tree);

    assert!(tree.is_dir(&"demo/a".to_string()));
    assert!(tree.is_dir(&"demo/a/b".to_string()));
    assert_eq!(
        tree.file_content(&"demo/a/b/c.txt".to_string()),
        Some(&"".to_string())
    );
    assert_eq!(stats.files_count, 1);
    assert_eq!(stats.dirs_count, 0);
}

#[test]
fn output_override_replaces_project_name() {
    let mut generator = ProjectGenerator::new(demo_config());
    let mut tree = FsTree::new();
    let target = "elsewhere".to_string();
    let (stats, _) = generator.generate(Some(&target), &mut tree);

    assert_eq!(stats.output_dir, "elsewhere");
    assert!(tree.is_dir(&"elsewhere/src".to_string()));
    assert!(!tree.contains_path(&"demo/src".to_string()));
}

#[test]
fn scripts_are_handed_over_in_order() {
    let mut config = demo_config();
    config.custom_scripts = CustomScripts {
        post_create: vec!["exit 1".to_string(), "echo ok".to_string()],
    };
    let mut generator = ProjectGenerator::new(config);
    let mut tree = FsTree::new();
    let (stats, _) = generator.generate(None, &mut tree);

    assert_eq!(
        stats.scripts_to_run,
        Some(vec!["exit 1".to_string(), "echo ok".to_string()])
    );
}

#[test]
fn existing_paths_are_never_overwritten() {
    let mut tree = FsTree::new();
    let config = ProjectConfig {
        project: ProjectMeta {
            name: "demo".to_string(),
            project_type: None,
            description: None,
        },
        features: vec![],
        directories: vec![],
        files: vec![FileItem::Complex(ComplexFile {
            path: "kept.txt".to_string(),
            content: Some("new".to_string()),
            condition: None,
        })],
        custom_scripts: CustomScripts { post_create: vec![] },
    };
    let mut first = ProjectGenerator::new(config);
    let (_, _) = first.generate(None, &mut tree);
    assert_eq!(
        tree.file_content(&"demo/kept.txt".to_string()),
        Some(&"new".to_string())
    );

    let config2 = ProjectConfig {
        project: ProjectMeta {
            name: "demo".to_string(),
            project_type: None,
            description: None,
        },
        features: vec![],
        directories: vec![],
        files: vec![FileItem::Complex(ComplexFile {
            path: "kept.txt".to_string(),
            content: Some("changed".to_string()),
            condition: None,
        })],
        custom_scripts: CustomScripts { post_create: vec![] },
    };
    let mut second = ProjectGenerator::new(config2);
    let (stats, _) = second.generate(None, &mut tree);
    assert_eq!(stats.files_count, 0);
    assert_eq!(stats.skipped_count, 1);
    assert_eq!(
        tree.file_content(&"demo/kept.txt".to_string()),
        Some(&"new".to_string())
    );
}
