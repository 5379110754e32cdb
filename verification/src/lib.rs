pub mod cli;
pub mod config;
pub mod evaluator;
pub mod generator;

pub use cli::Cli;
pub use config::ComplexFile;
pub use config::ComplexItem;
pub use config::CustomScripts;
pub use config::DirectoryItem;
pub use config::Entry;
pub use config::EntryKind;
pub use config::FeatureValue;
pub use config::FileItem;
pub use config::GenerationStats;
pub use config::ProjectConfig;
pub use config::ProjectMeta;
pub use config::StepOutcome;
pub use evaluator::build_context;
pub use evaluator::evaluate_condition;
pub use evaluator::int_to_string;
pub use evaluator::trim_str;
pub use evaluator::FeatureContext;
pub use generator::join_path;
pub use generator::parent_dir;
pub use generator::FsTree;
pub use generator::ProgressEvent;
pub use generator::ProjectGenerator;
pub use generator::Status;
