use egui_snarl::color::mix_rgba;

#[test]
fn mixing_takes_rounded_down_mean_of_each_channel() {
    assert_eq!(mix_rgba([255, 0, 10, 255], [255, 255, 21, 0]), [255, 127, 15, 127]);
    assert_eq!(mix_rgba([1, 2, 3, 4], [1, 2, 3, 4]), [1, 2, 3, 4]);
}
