use fivee_core::assets::{Statblock, TomlLoader};

#[test]
fn statblock_holds_its_attributes() {
    let sb = Statblock {
        name: String::from("Goblin"),
        speed: 30,
        hit_points: 7,
    };
    assert_eq!(sb.name, "Goblin");
    assert_eq!(sb.speed, 30);
    assert_eq!(sb.hit_points, 7);
}

#[test]
fn loader_handles_toml_files() {
    let loader = TomlLoader::new();
    assert_eq!(loader.extensions(), "toml");
}
