#![allow(unused_imports)]
pub mod abort;
pub mod address;
pub mod animations;
pub mod atomics;
pub mod audio_ctx;
pub mod base64;
pub mod bindings;
pub mod bytes;
pub mod calendar;
pub mod canvas;
pub mod class_list;
pub mod clipboard;
pub mod color;
pub mod compression;
pub mod crypto;
pub mod dialog;
pub mod dom;
pub mod engine;
pub mod events;
pub mod fetch;
pub mod file;
pub mod fontloading;
pub mod formdata;
pub mod forms;
pub mod history;
pub mod idb;
pub mod intl;
pub mod markup;
pub mod media;
pub mod mse;
pub mod mutate;
pub mod number;
pub mod observers;
pub mod offscreen;
pub mod opfs;
pub mod paint_worklet;
pub mod pairs;
pub mod pattern;
pub mod performance;
pub mod permissions;
pub mod pixels;
pub mod registry;
pub mod scripts;
pub mod selector;
pub mod sort;
pub mod style;
pub mod text;
pub mod timers;
pub mod tree;
