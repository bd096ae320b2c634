use egui_vulkano::{EguiVulkanoRenderer, Texture, TextureId};

#[test]
fn ids_count_up() {
    let mut renderer = EguiVulkanoRenderer::new("font");
    assert_eq!(renderer.register_user_image("a"), TextureId::User(0));
    assert_eq!(renderer.register_user_image("b"), TextureId::User(1));
    assert_eq!(renderer.register_user_image("c"), TextureId::User(2));
    assert_eq!(renderer.desc_set(TextureId::User(1)), Some(&"b"));
    assert_eq!(renderer.desc_set(TextureId::Egui), Some(&"font"));
}

#[test]
fn unregistered_ids_are_given_out_again() {
    let mut renderer = EguiVulkanoRenderer::new("font");
    for name in ["a", "b", "c", "d"].iter() {
        renderer.register_user_image(*name);
    }
    renderer.unregister_user_image(TextureId::User(2));
    renderer.unregister_user_image(TextureId::User(1));
    assert_eq!(renderer.register_user_image("e"), TextureId::User(1));
    assert_eq!(renderer.register_user_image("f"), TextureId::User(2));
    assert_eq!(renderer.register_user_image("g"), TextureId::User(4));
    assert_eq!(renderer.desc_set(TextureId::User(0)), Some(&"a"));
    assert_eq!(renderer.desc_set(TextureId::User(1)), Some(&"e"));
    assert_eq!(renderer.desc_set(TextureId::User(2)), Some(&"f"));
    assert_eq!(renderer.desc_set(TextureId::User(3)), Some(&"d"));
}

#[test]
fn unregistering_twice_changes_nothing() {
    let mut renderer = EguiVulkanoRenderer::new(0);
    renderer.register_user_image(1);
    renderer.register_user_image(2);
    renderer.unregister_user_image(TextureId::User(0));
    renderer.unregister_user_image(TextureId::User(0));
    renderer.unregister_user_image(TextureId::Egui);
    assert_eq!(renderer.desc_set(TextureId::User(1)), Some(&2));
    assert_eq!(renderer.desc_set(TextureId::Egui), Some(&0));
    assert_eq!(renderer.desc_set(TextureId::User(0)), None);
    assert_eq!(renderer.desc_set(TextureId::User(2)), None);
    assert_eq!(renderer.slot_count(), 2);
    assert_eq!(renderer.register_user_image(3), TextureId::User(0));
}

#[test]
fn unregistering_undoes_registering() {
    let mut renderer = EguiVulkanoRenderer::new(0);
    renderer.register_user_image(1);
    let id = renderer.register_user_image(2);
    renderer.unregister_user_image(id);
    assert_eq!(renderer.desc_set(TextureId::User(0)), Some(&1));
    assert_eq!(renderer.register_user_image(3), id);
}

fn font(version: u64, pixels: &Vec<u8>) -> Texture<'_> {
    Texture { version, width: 2, height: 1, pixels }
}

#[test]
fn font_image_repeats_each_byte() {
    let renderer = EguiVulkanoRenderer::new("placeholder");
    let image = renderer.update_font_texture(&font(9, &vec![7, 255])).unwrap();
    assert_eq!(image.data, vec![7, 7, 7, 7, 255, 255, 255, 255]);
    assert_eq!((image.width, image.height, image.version), (2, 1, 9));
}

#[test]
fn font_is_loaded_once() {
    let mut renderer = EguiVulkanoRenderer::new("placeholder");
    let image = renderer.update_font_texture(&font(9, &vec![7, 255])).unwrap();
    assert!(renderer.update_font_texture(&font(9, &vec![7, 255])).is_some());
    renderer.set_font_image(&image, "loaded");
    assert_eq!(renderer.desc_set(TextureId::Egui), Some(&"loaded"));
    assert!(renderer.update_font_texture(&font(9, &vec![7, 255])).is_none());
    assert!(renderer.update_font_texture(&font(10, &vec![7, 255])).is_some());
}

#[test]
fn version_zero_is_the_placeholder() {
    let renderer = EguiVulkanoRenderer::new("placeholder");
    assert!(renderer.update_font_texture(&font(0, &vec![7, 255])).is_none());
}
