mod boundary;
mod component_manager;
mod component_storage;
mod engine;
mod entity_manager;
mod system_manager;

pub use component_manager::ComponentManager;
pub use component_storage::ComponentStorage;
pub use engine::{Engine, Entity};
pub use entity_manager::EntityManager;
pub use system_manager::{apply1, apply2, apply3, apply4, System, SystemManager};
